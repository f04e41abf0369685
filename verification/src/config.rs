//! Configuration: its defaults, its validation and the upstreams it resolves to.

use vstd::prelude::*;
use vstd::string::*;

use crate::address::{parse_address, socket_address, SocketAddress};
use crate::error::{GatewayError, StartupError};
use crate::table::{holds, position, NameTable};
use crate::text::{
    index_of, same_text, text_view, trim, trimmed, trimming_leaves_nothing_of_white_space,
    trimming_takes_white_space_alone, white_space,
};
use crate::uri::{build_uri, parse_uri, path_part, query_part, uri_built, uri_read, Uri, UriParts};

verus! {

/// Default request body limit: 200 MB.
pub const DEFAULT_MAX_BODY_BYTES: u64 = 200_000_000;

/// Top-level configuration.
#[derive(Debug)]
pub struct Config {
    pub server: ServerConfig,
    pub auth: AuthConfig,
    pub upstreams: NameTable<UpstreamConfig>,
}

#[derive(Debug)]
pub struct ServerConfig {
    /// Listen address, e.g. `0.0.0.0:4000`.
    pub listen: String,
    /// Fallback upstream used when no model is specified.
    pub default_upstream: Option<String>,
    /// Request body limit; anything larger gets a 413.
    pub max_body_bytes: u64,
    /// Configuring this section enables server-side HTTPS.
    pub tls: Option<TlsServerConfig>,
    /// Upstream probing behind `GET /readyz`.
    pub health: HealthConfig,
}

/// Upstream health probing, surfaced through `GET /readyz`.
#[derive(Debug, Clone, Copy)]
pub struct HealthConfig {
    /// Probe upstreams in the background; when disabled `/readyz` is always ready.
    pub enabled: bool,
    /// Seconds between two probe passes.
    pub interval_secs: u64,
    /// Timeout of a single probe, in seconds.
    pub timeout_secs: u64,
    /// Probe kind: `models` requires a successful `GET /v1/models`, `tcp` only opens a connection.
    pub mode: HealthMode,
}

impl Default for HealthConfig {
    fn default() -> (r: HealthConfig)
        ensures
            r == (HealthConfig {
                enabled: true,
                interval_secs: 10,
                timeout_secs: 2,
                mode: HealthMode::Models,
            }),
    {
        HealthConfig {
            enabled: default_true(),
            interval_secs: default_health_interval_secs(),
            timeout_secs: default_health_timeout_secs(),
            mode: HealthMode::Models,
        }
    }
}

/// How an upstream is probed.
#[derive(Debug, Clone, Copy, PartialEq, Eq, Structural)]
pub enum HealthMode {
    /// `GET /v1/models` has to answer with a success status.
    Models,
    /// A plain TCP connection is enough; only reachability is checked.
    Tcp,
}

impl Default for HealthMode {
    fn default() -> (r: HealthMode)
        ensures
            r == HealthMode::Models,
    {
        HealthMode::Models
    }
}

impl HealthMode {
    /// Stable name, used in logs and error messages.
    pub fn as_str(self) -> (name: &'static str)
        ensures
            name@ == (match self {
                HealthMode::Models => "models"@,
                HealthMode::Tcp => "tcp"@,
            }),
    {
        match self {
            HealthMode::Models => "models",
            HealthMode::Tcp => "tcp",
        }
    }

    /// The mode with this stable name.
    pub fn from_name(name: &str) -> (r: Option<HealthMode>)
        ensures
            match r {
                Some(HealthMode::Models) => name@ == "models"@,
                Some(HealthMode::Tcp) => name@ == "tcp"@,
                None => name@ != "models"@ && name@ != "tcp"@,
            },
    {
        if same_text(name, "models") {
            Some(HealthMode::Models)
        } else if same_text(name, "tcp") {
            Some(HealthMode::Tcp)
        } else {
            None
        }
    }
}

/// Probing is on unless it is switched off.
pub fn default_true() -> (r: bool)
    ensures
        r,
{
    true
}

/// Ten seconds between two probe passes.
pub fn default_health_interval_secs() -> (secs: u64)
    ensures
        secs == 10,
{
    10
}

/// Two seconds for a probe.
pub fn default_health_timeout_secs() -> (secs: u64)
    ensures
        secs == 2,
{
    2
}

/// The default request body limit.
pub fn default_max_body_bytes() -> (bytes: u64)
    ensures
        bytes == DEFAULT_MAX_BODY_BYTES,
        bytes == 200_000_000,
{
    DEFAULT_MAX_BODY_BYTES
}

/// Paths of the PEM certificate chain and private key.
#[derive(Debug, Clone)]
pub struct TlsServerConfig {
    pub cert_path: String,
    pub key_path: String,
}

#[derive(Debug)]
pub struct AuthConfig {
    pub enabled: bool,
    /// Unified key -> caller description.
    pub keys: NameTable<String>,
}

impl Default for AuthConfig {
    fn default() -> (r: AuthConfig)
        ensures
            !r.enabled,
            r.keys.entries().len() == 0,
    {
        AuthConfig { enabled: false, keys: NameTable::new() }
    }
}

#[derive(Debug, Clone)]
pub struct UpstreamConfig {
    pub base_url: String,
    pub api_key: Option<String>,
    pub upstream_model: Option<String>,
    pub insecure_skip_verify: bool,
}

/// Validated upstream definition (`base_url` already parsed into a [`Uri`]).
#[derive(Debug, Clone)]
pub struct Upstream {
    pub name: String,
    /// Upstream root address: scheme + authority only.
    pub base: Uri,
    /// Path prefix taken from `base_url` (no trailing slash); empty when there is none.
    pub path_prefix: String,
    pub api_key: Option<String>,
    pub upstream_model: Option<String>,
    pub insecure_skip_verify: bool,
}

/// What an [`Upstream`] stands for.
pub ghost struct UpstreamParts {
    pub name: Seq<char>,
    pub base: UriParts,
    pub path_prefix: Seq<char>,
    pub api_key: Option<Seq<char>>,
    pub upstream_model: Option<Seq<char>>,
    pub insecure_skip_verify: bool,
}

impl View for Upstream {
    type V = UpstreamParts;

    open spec fn view(&self) -> UpstreamParts {
        UpstreamParts {
            name: self.name@,
            base: self.base@,
            path_prefix: self.path_prefix@,
            api_key: text_view(self.api_key),
            upstream_model: text_view(self.upstream_model),
            insecure_skip_verify: self.insecure_skip_verify,
        }
    }
}

/// `path` without the slashes at its end.
pub open spec fn without_slashes(path: Seq<char>) -> Seq<char>
    decreases path.len(),
{
    if path.len() > 0 && path.last() == '/' {
        without_slashes(path.drop_last())
    } else {
        path
    }
}

/// The root address of a URI: its scheme and authority, with nothing behind them.
pub open spec fn root_of(uri: UriParts) -> UriParts {
    UriParts { path: "/"@, query: None, ..uri }
}

/// The root address and the path prefix that the `base_url` of the upstream `name` stands for, or
/// why it is not acceptable.
pub open spec fn base_url_read(name: Seq<char>, base_url: Seq<char>) -> Result<
    (UriParts, Seq<char>),
    Seq<char>,
> {
    match uri_read(base_url) {
        Err(error) => Err(
            "upstream '"@ + name + "': base_url \""@ + base_url + "\" is not a valid URI: "@ + error,
        ),
        Ok(uri) => if uri.scheme != Some("http"@) && uri.scheme != Some("https"@) {
            Err(
                "upstream '"@ + name
                    + "': base_url must use http:// or https:// (current scheme: "@ + (
                match uri.scheme {
                    Some(scheme) => scheme,
                    None => "none"@,
                }) + ")"@,
            )
        } else if uri.authority is None {
            Err("upstream '"@ + name + "': base_url \""@ + base_url + "\" has no host"@)
        } else if uri.query is Some {
            Err(
                "upstream '"@ + name
                    + "': base_url must not contain a query (put the path prefix in the path)"@,
            )
        } else {
            Ok((root_of(uri), without_slashes(uri.path)))
        },
    }
}

/// Removes the slashes at the end of `path`.
fn trim_slashes<'a>(path: &'a str) -> (r: &'a str)
    ensures
        r@ == without_slashes(path@),
{
    let mut to: usize = path.unicode_len();
    assert(path@.subrange(0, to as int) == path@);
    while to > 0 && path.get_char(to - 1) == '/'
        invariant
            to <= path@.len(),
            without_slashes(path@.subrange(0, to as int)) == without_slashes(path@),
        decreases to,
    {
        assert(path@.subrange(0, to as int).drop_last() == path@.subrange(0, to - 1));
        to = to - 1;
    }
    path.substring_char(0, to)
}

/// Parse and validate `base_url`; returns (root URI, path prefix).
pub fn parse_base_url(name: &str, base_url: &str) -> (r: Result<(Uri, String), StartupError>)
    ensures
        match r {
            Ok((uri, prefix)) => base_url_read(name@, base_url@) == Ok::<
                (UriParts, Seq<char>),
                Seq<char>,
            >((uri@, prefix@)),
            Err(error) => base_url_read(name@, base_url@) == Err::<
                (UriParts, Seq<char>),
                Seq<char>,
            >(error.0@),
        },
{
    let mut message = "upstream '".to_string();
    message.append(name);
    let uri = match parse_uri(base_url) {
        Ok(uri) => uri,
        Err(error) => {
            message.append("': base_url \"");
            message.append(base_url);
            message.append("\" is not a valid URI: ");
            message.append(error.as_str());
            return Err(StartupError(message));
        },
    };
    let accepted = match &uri.scheme {
        Some(scheme) => same_text(scheme.as_str(), "http") || same_text(scheme.as_str(), "https"),
        None => false,
    };
    if !accepted {
        message.append("': base_url must use http:// or https:// (current scheme: ");
        match &uri.scheme {
            Some(scheme) => {
                message.append(scheme.as_str());
            },
            None => {
                message.append("none");
            },
        }
        message.append(")");
        return Err(StartupError(message));
    }
    if uri.authority.is_none() {
        message.append("': base_url \"");
        message.append(base_url);
        message.append("\" has no host");
        return Err(StartupError(message));
    }
    if uri.query.is_some() {
        message.append("': base_url must not contain a query (put the path prefix in the path)");
        return Err(StartupError(message));
    }
    let prefix = trim_slashes(uri.path.as_str()).to_string();
    let root = Uri {
        scheme: uri.scheme,
        authority: uri.authority,
        host: uri.host,
        port: uri.port,
        path: "/".to_string(),
        query: None,
    };
    Ok((root, prefix))
}

/// Whether an optional setting is given but has nothing but white space in it.
pub open spec fn given_blank(setting: Option<Seq<char>>) -> bool {
    match setting {
        Some(text) => trimmed(text).len() == 0,
        None => false,
    }
}

fn is_given_blank(setting: &Option<String>) -> (r: bool)
    ensures
        r == given_blank(text_view(*setting)),
{
    match setting {
        Some(text) => trim(text.as_str()).is_empty(),
        None => false,
    }
}

/// What is wrong with one upstream.
pub open spec fn upstream_error(name: Seq<char>, upstream: UpstreamConfig) -> Option<Seq<char>> {
    if trimmed(name).len() == 0 {
        Some("upstream name must not be empty"@)
    } else if let Err(error) = base_url_read(name, upstream.base_url@) {
        Some(error)
    } else if given_blank(text_view(upstream.api_key)) {
        Some("upstream '"@ + name + "': api_key must not be an empty string"@)
    } else if given_blank(text_view(upstream.upstream_model)) {
        Some("upstream '"@ + name + "': upstream_model must not be an empty string"@)
    } else {
        None
    }
}

/// What is wrong with the first upstream, from `i` on, with which something is.
pub open spec fn first_upstream_error(
    upstreams: Seq<(Seq<char>, UpstreamConfig)>,
    i: int,
) -> Option<Seq<char>>
    decreases upstreams.len() - i,
{
    if 0 <= i < upstreams.len() {
        if upstream_error(upstreams[i].0, upstreams[i].1) is Some {
            upstream_error(upstreams[i].0, upstreams[i].1)
        } else {
            first_upstream_error(upstreams, i + 1)
        }
    } else {
        None
    }
}

/// What is wrong with a listen address.
pub open spec fn listen_error(listen: Seq<char>) -> Option<Seq<char>> {
    if socket_address(listen) {
        None
    } else {
        Some("server.listen = \""@ + listen + "\" is not a valid <IP>:<port>"@)
    }
}

/// What is wrong with a configuration: the first of the rules that it breaks, in this order.
pub open spec fn config_error(config: Config) -> Option<Seq<char>> {
    let server = config.server;
    let upstreams = config.upstreams.entries();
    if trimmed(server.listen@).len() == 0 {
        Some("server.listen must not be empty"@)
    } else if listen_error(server.listen@) is Some {
        listen_error(server.listen@)
    } else if server.max_body_bytes == 0 {
        Some("server.max_body_bytes must be greater than 0"@)
    } else if server.health.enabled && server.health.interval_secs == 0 {
        Some("server.health.interval_secs must be greater than 0"@)
    } else if server.health.enabled && server.health.timeout_secs == 0 {
        Some("server.health.timeout_secs must be greater than 0"@)
    } else if upstreams.len() == 0 {
        Some("at least one [upstreams.<name>] upstream must be configured"@)
    } else if config.auth.enabled && config.auth.keys.entries().len() == 0 {
        Some("auth.enabled = true but auth.keys is empty: every request would be rejected"@)
    } else if first_upstream_error(upstreams, 0) is Some {
        first_upstream_error(upstreams, 0)
    } else {
        match server.default_upstream {
            Some(name) if !holds(upstreams, name@) => Some(
                "server.default_upstream = \""@ + name@ + "\" is not defined in [upstreams]"@,
            ),
            _ => None,
        }
    }
}

/// The upstream that a configured one resolves to.
pub open spec fn resolved(name: Seq<char>, upstream: UpstreamConfig) -> UpstreamParts {
    let (base, path_prefix) = base_url_read(name, upstream.base_url@)->Ok_0;
    UpstreamParts {
        name,
        base,
        path_prefix,
        api_key: text_view(upstream.api_key),
        upstream_model: text_view(upstream.upstream_model),
        insecure_skip_verify: upstream.insecure_skip_verify,
    }
}

/// Why the first upstream, from `i` on, that does not resolve does not.
pub open spec fn resolve_error(
    upstreams: Seq<(Seq<char>, UpstreamConfig)>,
    i: int,
) -> Option<Seq<char>>
    decreases upstreams.len() - i,
{
    if 0 <= i < upstreams.len() {
        match base_url_read(upstreams[i].0, upstreams[i].1.base_url@) {
            Err(error) => Some(error),
            Ok(_) => resolve_error(upstreams, i + 1),
        }
    } else {
        None
    }
}

/// Whether the upstreams of `table` are those that `upstreams` resolve to, name by name.
pub open spec fn resolves_to(
    upstreams: Seq<(Seq<char>, UpstreamConfig)>,
    table: Seq<(Seq<char>, Upstream)>,
) -> bool {
    &&& table.len() == upstreams.len()
    &&& forall|i: int|
        #![trigger table[i]]
        0 <= i < table.len() ==> table[i].0 == upstreams[i].0 && table[i].1@ == resolved(
            upstreams[i].0,
            upstreams[i].1,
        )
}

/// A configuration that passes validation is usable: every upstream resolves, and the default
/// upstream is one of them.
pub proof fn valid_config_resolves(config: Config)
    requires
        config_error(config) is None,
    ensures
        resolve_error(config.upstreams.entries(), 0) is None,
        config.upstreams.entries().len() > 0,
        config.server.default_upstream matches Some(name) ==> holds(
            config.upstreams.entries(),
            name@,
        ),
{
    valid_upstreams_resolve(config.upstreams.entries(), 0);
}

proof fn valid_upstreams_resolve(upstreams: Seq<(Seq<char>, UpstreamConfig)>, i: int)
    requires
        0 <= i <= upstreams.len(),
        first_upstream_error(upstreams, i) is None,
    ensures
        resolve_error(upstreams, i) is None,
    decreases upstreams.len() - i,
{
    if i < upstreams.len() {
        valid_upstreams_resolve(upstreams, i + 1);
    }
}

/// The names of the resolved upstreams are the configured names, no more and no fewer.
pub proof fn resolved_names_are_configured(
    upstreams: Seq<(Seq<char>, UpstreamConfig)>,
    table: Seq<(Seq<char>, Upstream)>,
    name: Seq<char>,
)
    requires
        resolves_to(upstreams, table),
    ensures
        holds(table, name) <==> holds(upstreams, name),
{
    if holds(table, name) {
        let i = position(table, name);
        assert(upstreams[i].0 == name);
    }
    if holds(upstreams, name) {
        let i = position(upstreams, name);
        assert(table[i].0 == name);
    }
}

/// A failure with a fixed text.
fn startup_error(message: &str) -> (error: StartupError)
    ensures
        error.0@ == message@,
{
    StartupError(message.to_string())
}

impl Config {
    /// Full static validation. The goal is to catch config errors at startup rather than per
    /// request.
    pub fn validate(&self) -> (r: Result<(), StartupError>)
        ensures
            match r {
                Ok(_) => config_error(*self) is None,
                Err(error) => config_error(*self) == Some(error.0@),
            },
    {
        if trim(self.server.listen.as_str()).is_empty() {
            return Err(startup_error("server.listen must not be empty"));
        }
        if let Err(error) = self.socket_addr() {
            return Err(error);
        }
        if self.server.max_body_bytes == 0 {
            return Err(startup_error("server.max_body_bytes must be greater than 0"));
        }
        if self.server.health.enabled && self.server.health.interval_secs == 0 {
            return Err(startup_error("server.health.interval_secs must be greater than 0"));
        }
        if self.server.health.enabled && self.server.health.timeout_secs == 0 {
            return Err(startup_error("server.health.timeout_secs must be greater than 0"));
        }
        if self.upstreams.is_empty() {
            return Err(
                startup_error("at least one [upstreams.<name>] upstream must be configured"),
            );
        }
        if self.auth.enabled && self.auth.keys.is_empty() {
            return Err(
                startup_error(
                    "auth.enabled = true but auth.keys is empty: every request would be rejected",
                ),
            );
        }
        let ghost upstreams = self.upstreams.entries();
        let mut i: usize = 0;
        while i < self.upstreams.len()
            invariant
                upstreams == self.upstreams.entries(),
                i <= upstreams.len(),
                first_upstream_error(upstreams, 0) == first_upstream_error(upstreams, i as int),
                first_upstream_error(upstreams, 0) is Some ==> config_error(*self)
                    == first_upstream_error(upstreams, 0),
            decreases upstreams.len() - i,
        {
            if let Err(error) = validate_upstream(
                self.upstreams.name_at(i),
                self.upstreams.value_at(i),
            ) {
                return Err(error);
            }
            i = i + 1;
        }
        if let Some(default) = &self.server.default_upstream {
            if !self.upstreams.contains_key(default.as_str()) {
                let mut message = "server.default_upstream = \"".to_string();
                message.append(default.as_str());
                message.append("\" is not defined in [upstreams]");
                return Err(StartupError(message));
            }
        }
        Ok(())
    }

    /// Parse the listen address.
    pub fn socket_addr(&self) -> (r: Result<SocketAddress, StartupError>)
        ensures
            match r {
                Ok(address) => {
                    let at = crate::address::last_of(self.server.listen@, ':');
                    &&& socket_address(self.server.listen@)
                    &&& address.host@ == self.server.listen@.take(at)
                    &&& address.port == crate::address::digits_value(
                        self.server.listen@.skip(at + 1),
                    )
                },
                Err(error) => listen_error(self.server.listen@) == Some(error.0@),
            },
    {
        match parse_address(self.server.listen.as_str()) {
            Some(address) => Ok(address),
            None => {
                let mut message = "server.listen = \"".to_string();
                message.append(self.server.listen.as_str());
                message.append("\" is not a valid <IP>:<port>");
                Err(StartupError(message))
            },
        }
    }

    /// Resolve every configured upstream.
    pub fn resolve_upstreams(&self) -> (r: Result<NameTable<Upstream>, StartupError>)
        ensures
            match r {
                Ok(table) => {
                    &&& resolve_error(self.upstreams.entries(), 0) is None
                    &&& resolves_to(self.upstreams.entries(), table.entries())
                },
                Err(error) => resolve_error(self.upstreams.entries(), 0) == Some(error.0@),
            },
    {
        let ghost upstreams = self.upstreams.entries();
        let mut table: NameTable<Upstream> = NameTable::new();
        let mut i: usize = 0;
        proof {
            use_type_invariant(&self.upstreams);
        }
        while i < self.upstreams.len()
            invariant
                upstreams == self.upstreams.entries(),
                self.upstreams.wf(),
                i <= upstreams.len(),
                resolve_error(upstreams, 0) == resolve_error(upstreams, i as int),
                resolves_to(upstreams.take(i as int), table.entries()),
            decreases upstreams.len() - i,
        {
            let name = self.upstreams.name_at(i);
            match Upstream::from_config(name, self.upstreams.value_at(i)) {
                Ok(upstream) => {
                    assert forall|k: int| 0 <= k < table.entries().len() implies crate::text::before(
                        (#[trigger] table.entries()[k]).0,
                        name@,
                    ) by {
                        assert(table.entries()[k].0 == upstreams[k].0);
                        assert(upstreams[i as int].0 == name@);
                    }
                    let ghost was = table.entries();
                    table.append(name.to_string(), upstream);
                    assert forall|k: int|
                        #![trigger table.entries()[k]]
                        0 <= k < table.entries().len() implies table.entries()[k].0
                        == upstreams.take(i + 1)[k].0 && table.entries()[k].1@ == resolved(
                        upstreams.take(i + 1)[k].0,
                        upstreams.take(i + 1)[k].1,
                    ) by {
                        if k < i {
                            assert(table.entries()[k] == was[k]);
                            assert(upstreams.take(i as int)[k] == upstreams[k]);
                        }
                    }
                },
                Err(error) => {
                    return Err(error);
                },
            }
            i = i + 1;
        }
        assert(upstreams.take(i as int) == upstreams);
        Ok(table)
    }
}

/// Checks one upstream.
fn validate_upstream(name: &str, upstream: &UpstreamConfig) -> (r: Result<(), StartupError>)
    ensures
        match r {
            Ok(_) => upstream_error(name@, *upstream) is None,
            Err(error) => upstream_error(name@, *upstream) == Some(error.0@),
        },
{
    if trim(name).is_empty() {
        return Err(startup_error("upstream name must not be empty"));
    }
    if let Err(error) = parse_base_url(name, upstream.base_url.as_str()) {
        return Err(error);
    }
    let mut message = "upstream '".to_string();
    message.append(name);
    if is_given_blank(&upstream.api_key) {
        message.append("': api_key must not be an empty string");
        return Err(StartupError(message));
    }
    if is_given_blank(&upstream.upstream_model) {
        message.append("': upstream_model must not be an empty string");
        return Err(StartupError(message));
    }
    Ok(())
}

/// The path and query that a request for `path` and `query` has at an upstream with the path
/// prefix `prefix`.
pub open spec fn target_path(
    prefix: Seq<char>,
    path: Seq<char>,
    query: Option<Seq<char>>,
) -> Seq<char> {
    prefix + path + (match query {
        Some(query) => "?"@ + query,
        None => Seq::empty(),
    })
}

/// The URI at an upstream that a request URI is forwarded to: the upstream's scheme and
/// authority, its path prefix, and the path and query of the request.
pub open spec fn target_of(upstream: UpstreamParts, request: UriParts) -> Result<UriParts, Seq<char>> {
    match upstream.base.authority {
        None => Err("upstream base_url has no host"@),
        Some(authority) => match uri_built(
            match upstream.base.scheme {
                Some(scheme) => scheme,
                None => "http"@,
            },
            authority,
            target_path(upstream.path_prefix, request.path, request.query),
        ) {
            Ok(uri) => Ok(uri),
            Err(error) => Err("failed to build upstream URL: "@ + error),
        },
    }
}

/// Whether `text` could be a path without a query or a fragment.
pub open spec fn only_path(text: Seq<char>) -> bool {
    !text.contains('?') && !text.contains('#')
}

/// The first question mark stands behind a text that has none.
proof fn question_mark_behind(path: Seq<char>, rest: Seq<char>)
    requires
        !path.contains('?'),
        rest.len() > 0 ==> rest[0] == '?',
    ensures
        index_of(path + rest, '?') == path.len(),
    decreases path.len(),
{
    let all = path + rest;
    if path.len() > 0 {
        assert(path.contains(path[0]));
        assert(all.skip(1) == path.skip(1) + rest);
        assert forall|c: char| path.skip(1).contains(c) implies path.contains(c) by {
            let i = choose|i: int| 0 <= i < path.skip(1).len() && path.skip(1)[i] == c;
            assert(path[i + 1] == c);
        }
        question_mark_behind(path.skip(1), rest);
    } else {
        assert(all == rest);
    }
}

impl Upstream {
    /// Resolve one configured upstream.
    pub fn from_config(name: &str, cfg: &UpstreamConfig) -> (r: Result<Self, StartupError>)
        ensures
            match r {
                Ok(upstream) => base_url_read(name@, cfg.base_url@) is Ok && upstream@ == resolved(
                    name@,
                    *cfg,
                ),
                Err(error) => base_url_read(name@, cfg.base_url@) == Err::<
                    (UriParts, Seq<char>),
                    Seq<char>,
                >(error.0@),
            },
    {
        match parse_base_url(name, cfg.base_url.as_str()) {
            Ok((base, path_prefix)) => Ok(
                Upstream {
                    name: name.to_string(),
                    base,
                    path_prefix,
                    api_key: copied(&cfg.api_key),
                    upstream_model: copied(&cfg.upstream_model),
                    insecure_skip_verify: cfg.insecure_skip_verify,
                },
            ),
            Err(error) => Err(error),
        }
    }

    /// Build the absolute upstream URI from the client request URI: keep path + query, prepend
    /// the `base_url` prefix.
    pub fn target_uri(&self, req: &Uri) -> (r: Result<Uri, GatewayError>)
        ensures
            match r {
                Ok(uri) => {
                    &&& target_of(self@, req@) == Ok::<UriParts, Seq<char>>(uri@)
                    &&& uri@.authority == self@.base.authority
                    &&& self@.base.scheme is Some ==> uri@.scheme == self@.base.scheme
                    &&& only_path(self@.path_prefix + req@.path) && (req@.query matches Some(query)
                        ==> !query.contains('#')) ==> uri@.query == req@.query && uri@.path == (
                    if (self@.path_prefix + req@.path).len() == 0 {
                        seq!['/']
                    } else {
                        self@.path_prefix + req@.path
                    })
                },
                Err(error) => error.status.0 == 500 && target_of(self@, req@) == Err::<
                    UriParts,
                    Seq<char>,
                >(error.message@),
            },
    {
        let scheme = match &self.base.scheme {
            Some(scheme) => scheme.as_str(),
            None => "http",
        };
        let authority = match &self.base.authority {
            Some(authority) => authority.as_str(),
            None => {
                return Err(GatewayError::internal("upstream base_url has no host"));
            },
        };
        let mut path_and_query = self.path_prefix.clone();
        path_and_query.append(req.path.as_str());
        if let Some(query) = &req.query {
            path_and_query.append("?");
            path_and_query.append(query.as_str());
        }
        assert(path_and_query@ == target_path(self@.path_prefix, req@.path, req@.query));
        proof {
            if only_path(self@.path_prefix + req@.path) && (req@.query matches Some(query)
                ==> !query.contains('#')) {
                target_path_splits(self@.path_prefix + req@.path, req@.query);
            }
        }
        match build_uri(scheme, authority, path_and_query.as_str()) {
            Ok(uri) => Ok(uri),
            Err(error) => {
                let mut message = "failed to build upstream URL: ".to_string();
                message.append(error.as_str());
                Err(GatewayError::internal(message.as_str()))
            },
        }
    }

    /// Whether this upstream is reached over TLS.
    pub fn uses_tls(&self) -> (r: bool)
        ensures
            r == (self@.base.scheme == Some("https"@)),
    {
        match &self.base.scheme {
            Some(scheme) => same_text(scheme.as_str(), "https"),
            None => false,
        }
    }
}

/// A path and a query that are put together come apart as they were.
proof fn target_path_splits(path: Seq<char>, query: Option<Seq<char>>)
    requires
        only_path(path),
        query matches Some(query) ==> !query.contains('#'),
    ensures
        ({
            let all = path + (match query {
                Some(query) => "?"@ + query,
                None => Seq::<char>::empty(),
            });
            &&& !all.contains('#')
            &&& query_part(all) == query
            &&& path_part(all) == if path.len() == 0 {
                seq!['/']
            } else {
                path
            }
        }),
{
    reveal_strlit("?");
    let rest = match query {
        Some(query) => "?"@ + query,
        None => Seq::<char>::empty(),
    };
    let all = path + rest;
    question_mark_behind(path, rest);
    assert(all.take(path.len() as int) == path);
    if let Some(query) = query {
        assert(all.skip(path.len() as int + 1) == query);
    }
    if all.contains('#') {
        let i = choose|i: int| 0 <= i < all.len() && all[i] == '#';
        if i < path.len() {
            assert(path[i] == '#');
        } else if let Some(query) = query {
            assert(i != path.len());
            assert(query[i - path.len() - 1] == '#');
        }
    }
}

/// A copy of an optional text.
fn copied(text: &Option<String>) -> (r: Option<String>)
    ensures
        text_view(r) == text_view(*text),
{
    match text {
        Some(text) => Some(text.clone()),
        None => None,
    }
}

/// Only the slashes at its end come off a path.
pub proof fn trailing_slashes_come_off(path: Seq<char>, slashes: Seq<char>)
    requires
        path.len() > 0 ==> path.last() != '/',
        forall|i: int| 0 <= i < slashes.len() ==> #[trigger] slashes[i] == '/',
    ensures
        without_slashes(path + slashes) == path,
    decreases slashes.len(),
{
    let all = path + slashes;
    if slashes.len() > 0 {
        assert(all.last() == slashes[slashes.len() - 1]);
        assert(all.drop_last() == path + slashes.drop_last());
        trailing_slashes_come_off(path, slashes.drop_last());
    } else {
        assert(all == path);
    }
}

/// A `base_url` that can be read is accepted exactly when it is one for HTTP or HTTPS with a host
/// and without a query. It stands for its own scheme, host and port, with nothing behind them, and
/// its path up to the slashes at the end is put in front of every path.
pub proof fn base_url_is_taken_apart(
    name: Seq<char>,
    base_url: Seq<char>,
    uri: UriParts,
    path: Seq<char>,
    slashes: Seq<char>,
)
    requires
        uri_read(base_url) == Ok::<UriParts, Seq<char>>(uri),
        uri.path == path + slashes,
        path.len() > 0 ==> path.last() != '/',
        forall|i: int| 0 <= i < slashes.len() ==> #[trigger] slashes[i] == '/',
    ensures
        base_url_read(name, base_url) is Ok <==> {
            &&& uri.scheme == Some("http"@) || uri.scheme == Some("https"@)
            &&& uri.authority is Some
            &&& uri.query is None
        },
        base_url_read(name, base_url) matches Ok((base, prefix)) ==> {
            &&& base.scheme == uri.scheme
            &&& base.authority == uri.authority
            &&& base.host == uri.host
            &&& base.port == uri.port
            &&& base.path == seq!['/']
            &&& base.query is None
            &&& prefix == path
        },
{
    trailing_slashes_come_off(path, slashes);
    reveal_strlit("/");
    assert("/"@ =~= seq!['/']);
}

/// A `base_url` that cannot be read is not accepted.
pub proof fn unreadable_base_url_is_refused(name: Seq<char>, base_url: Seq<char>)
    requires
        uri_read(base_url) is Err,
    ensures
        base_url_read(name, base_url) is Err,
{
}

/// An upstream keeps its name, its key, its model and whether its certificate is verified, exactly
/// as they are configured.
pub proof fn settings_are_kept(name: Seq<char>, upstream: UpstreamConfig)
    ensures
        ({
            let parts = resolved(name, upstream);
            &&& parts.name == name
            &&& parts.api_key == (match upstream.api_key {
                Some(key) => Some(key@),
                None => None,
            })
            &&& parts.upstream_model == (match upstream.upstream_model {
                Some(model) => Some(model@),
                None => None,
            })
            &&& parts.insecure_skip_verify == upstream.insecure_skip_verify
            &&& base_url_read(name, upstream.base_url@) matches Ok((base, prefix)) ==> parts.base
                == base && parts.path_prefix == prefix
        }),
{
}

/// Whether a setting is left out or has something in it beside white space.
pub open spec fn absent_or_filled(setting: Option<String>) -> bool {
    match setting {
        Some(text) => exists|i: int| 0 <= i < text@.len() && !white_space(#[trigger] text@[i]),
        None => true,
    }
}

/// A setting is blank exactly when it is given and has nothing but white space in it.
proof fn blank_or_filled(setting: Option<String>)
    ensures
        given_blank(text_view(setting)) <==> !absent_or_filled(setting),
{
    if let Some(text) = setting {
        text_or_blank(text@);
    }
}

/// Something is left of a text exactly when not all of it is white space.
proof fn text_or_blank(text: Seq<char>)
    ensures
        trimmed(text).len() > 0 <==> exists|i: int|
            0 <= i < text.len() && !white_space(#[trigger] text[i]),
{
    if forall|i: int| 0 <= i < text.len() ==> white_space(#[trigger] text[i]) {
        trimming_leaves_nothing_of_white_space(text);
    } else {
        trimming_takes_white_space_alone(text);
        let (i, j) = choose|i: int, j: int|
            {
                &&& 0 <= i <= j <= text.len()
                &&& trimmed(text) == #[trigger] text.subrange(i, j)
                &&& forall|k: int| 0 <= k < i ==> white_space(#[trigger] text[k])
                &&& forall|k: int| j <= k < text.len() ==> white_space(#[trigger] text[k])
                &&& i < j ==> !white_space(text[i]) && !white_space(text[j - 1])
            };
        let k = choose|k: int| 0 <= k < text.len() && !white_space(#[trigger] text[k]);
        assert(i <= k < j);
    }
}

/// An upstream is in order exactly when its name is not blank, its `base_url` is accepted, and its
/// key and its model, where they are given, are not blank.
pub proof fn upstream_is_in_order(name: Seq<char>, upstream: UpstreamConfig)
    ensures
        upstream_error(name, upstream) is None <==> {
            &&& exists|i: int| 0 <= i < name.len() && !white_space(#[trigger] name[i])
            &&& base_url_read(name, upstream.base_url@) is Ok
            &&& absent_or_filled(upstream.api_key)
            &&& absent_or_filled(upstream.upstream_model)
        },
{
    text_or_blank(name);
    blank_or_filled(upstream.api_key);
    blank_or_filled(upstream.upstream_model);
}

/// A configuration passes validation exactly when it breaks none of the rules.
pub proof fn configuration_is_in_order(config: Config)
    ensures
        config_error(config) is None <==> {
            &&& exists|i: int|
                0 <= i < config.server.listen@.len() && !white_space(
                    #[trigger] config.server.listen@[i],
                )
            &&& socket_address(config.server.listen@)
            &&& config.server.max_body_bytes > 0
            &&& config.server.health.enabled ==> config.server.health.interval_secs > 0
                && config.server.health.timeout_secs > 0
            &&& config.upstreams.entries().len() > 0
            &&& config.auth.enabled ==> config.auth.keys.entries().len() > 0
            &&& forall|i: int|
                #![trigger config.upstreams.entries()[i]]
                0 <= i < config.upstreams.entries().len() ==> upstream_error(
                    config.upstreams.entries()[i].0,
                    config.upstreams.entries()[i].1,
                ) is None
            &&& config.server.default_upstream matches Some(name) ==> exists|i: int|
                0 <= i < config.upstreams.entries().len()
                    && #[trigger] config.upstreams.entries()[i].0 == name@
        },
{
    text_or_blank(config.server.listen@);
    upstreams_in_order(config.upstreams.entries(), 0);
}

proof fn upstreams_in_order(upstreams: Seq<(Seq<char>, UpstreamConfig)>, from: int)
    requires
        0 <= from <= upstreams.len(),
    ensures
        first_upstream_error(upstreams, from) is None <==> forall|i: int|
            #![trigger upstreams[i]]
            from <= i < upstreams.len() ==> upstream_error(upstreams[i].0, upstreams[i].1) is None,
    decreases upstreams.len() - from,
{
    if from < upstreams.len() {
        upstreams_in_order(upstreams, from + 1);
        if upstream_error(upstreams[from].0, upstreams[from].1) is None {
            assert forall|i: int|
                #![trigger upstreams[i]]
                from <= i < upstreams.len() && first_upstream_error(
                    upstreams,
                    from + 1,
                ) is None implies upstream_error(upstreams[i].0, upstreams[i].1) is None by {}
        }
    }
}

/// A request is forwarded to the scheme and host of the upstream, under its path prefix, with the
/// path and the query of the request as they are.
pub proof fn target_keeps_path_and_query(
    upstream: UpstreamParts,
    request: UriParts,
    scheme: Seq<char>,
    authority: Seq<char>,
)
    requires
        upstream.base.scheme == Some(scheme),
        upstream.base.authority == Some(authority),
    ensures
        ({
            let path_and_query = upstream.path_prefix + request.path + (match request.query {
                Some(query) => seq!['?'] + query,
                None => Seq::empty(),
            });
            match uri_built(scheme, authority, path_and_query) {
                Ok(uri) => target_of(upstream, request) == Ok::<UriParts, Seq<char>>(uri),
                Err(error) => target_of(upstream, request) == Err::<UriParts, Seq<char>>(
                    "failed to build upstream URL: "@ + error,
                ),
            }
        }),
{
    reveal_strlit("?");
    assert("?"@ =~= seq!['?']);
}

/// What is wrong with a configuration is told by the first rule it breaks: first those on the
/// server, then that there is an upstream and a key, then those on each upstream in turn, and last
/// that the default upstream is one of them.
pub proof fn first_broken_rule_is_told(config: Config)
    ensures
        ({
            let server = config.server;
            let upstreams = config.upstreams.entries();
            let error = config_error(config);
            let named = exists|i: int|
                0 <= i < server.listen@.len() && !white_space(#[trigger] server.listen@[i]);
            let addressed = named && socket_address(server.listen@);
            let sized = addressed && server.max_body_bytes > 0;
            let paced = sized && (server.health.enabled ==> server.health.interval_secs > 0);
            let timed = paced && (server.health.enabled ==> server.health.timeout_secs > 0);
            let served = timed && upstreams.len() > 0;
            let keyed = served && (config.auth.enabled ==> config.auth.keys.entries().len() > 0);
            &&& !named ==> error == Some("server.listen must not be empty"@)
            &&& named && !addressed ==> error == Some(
                "server.listen = \""@ + server.listen@ + "\" is not a valid <IP>:<port>"@,
            )
            &&& addressed && !sized ==> error == Some(
                "server.max_body_bytes must be greater than 0"@,
            )
            &&& sized && !paced ==> error == Some(
                "server.health.interval_secs must be greater than 0"@,
            )
            &&& paced && !timed ==> error == Some(
                "server.health.timeout_secs must be greater than 0"@,
            )
            &&& timed && !served ==> error == Some(
                "at least one [upstreams.<name>] upstream must be configured"@,
            )
            &&& served && !keyed ==> error == Some(
                "auth.enabled = true but auth.keys is empty: every request would be rejected"@,
            )
            &&& keyed && error is Some ==> {
                ||| exists|i: int|
                    #![trigger upstreams[i]]
                    0 <= i < upstreams.len() && error == upstream_error(
                        upstreams[i].0,
                        upstreams[i].1,
                    ) && forall|k: int|
                        #![trigger upstreams[k]]
                        0 <= k < i ==> upstream_error(upstreams[k].0, upstreams[k].1) is None
                ||| server.default_upstream matches Some(name) && error == Some(
                    "server.default_upstream = \""@ + name@ + "\" is not defined in [upstreams]"@,
                )
            }
        }),
{
    text_or_blank(config.server.listen@);
    let upstreams = config.upstreams.entries();
    if first_upstream_error(upstreams, 0) is Some {
        let i = first_upstream_in_error(upstreams, 0);
        assert(upstream_error(upstreams[i].0, upstreams[i].1) is Some);
    }
}

proof fn first_upstream_in_error(upstreams: Seq<(Seq<char>, UpstreamConfig)>, from: int) -> (i: int)
    requires
        0 <= from <= upstreams.len(),
        first_upstream_error(upstreams, from) is Some,
    ensures
        from <= i < upstreams.len(),
        first_upstream_error(upstreams, from) == upstream_error(upstreams[i].0, upstreams[i].1),
        forall|k: int|
            #![trigger upstreams[k]]
            from <= k < i ==> upstream_error(upstreams[k].0, upstreams[k].1) is None,
    decreases upstreams.len() - from,
{
    if upstream_error(upstreams[from].0, upstreams[from].1) is Some {
        from
    } else {
        first_upstream_in_error(upstreams, from + 1)
    }
}

/// What is wrong with an upstream is told with its name.
pub proof fn wrong_upstream_is_named(name: Seq<char>, upstream: UpstreamConfig)
    ensures
        ({
            let error = upstream_error(name, upstream);
            let named = exists|i: int| 0 <= i < name.len() && !white_space(#[trigger] name[i]);
            let url = base_url_read(name, upstream.base_url@);
            &&& !named ==> error == Some("upstream name must not be empty"@)
            &&& named && url is Err ==> url == Err::<(UriParts, Seq<char>), Seq<char>>(
                error.unwrap(),
            ) && error is Some
            &&& named && url is Ok && !absent_or_filled(upstream.api_key) ==> error == Some(
                "upstream '"@ + name + "': api_key must not be an empty string"@,
            )
            &&& named && url is Ok && absent_or_filled(upstream.api_key) && !absent_or_filled(
                upstream.upstream_model,
            ) ==> error == Some(
                "upstream '"@ + name + "': upstream_model must not be an empty string"@,
            )
        }),
{
    text_or_blank(name);
    blank_or_filled(upstream.api_key);
    blank_or_filled(upstream.upstream_model);
}

/// What is wrong with a `base_url` is told with the name of its upstream.
pub proof fn wrong_base_url_is_told(name: Seq<char>, base_url: Seq<char>)
    ensures
        match (uri_read(base_url), base_url_read(name, base_url)) {
            (Err(reason), Err(error)) => error == "upstream '"@ + name + "': base_url \""@ + base_url
                + "\" is not a valid URI: "@ + reason,
            (Ok(uri), Err(error)) => if uri.scheme != Some("http"@) && uri.scheme != Some("https"@) {
                error == "upstream '"@ + name
                    + "': base_url must use http:// or https:// (current scheme: "@ + (
                match uri.scheme {
                    Some(scheme) => scheme,
                    None => "none"@,
                }) + ")"@
            } else if uri.authority is None {
                error == "upstream '"@ + name + "': base_url \""@ + base_url + "\" has no host"@
            } else {
                error == "upstream '"@ + name
                    + "': base_url must not contain a query (put the path prefix in the path)"@
            },
            (Ok(_), Ok(_)) => true,
            _ => false,
        },
{
}

/// An upstream without a host cannot be forwarded to.
pub proof fn hostless_upstreams_are_refused(upstream: UpstreamParts, request: UriParts)
    requires
        upstream.base.authority is None,
    ensures
        target_of(upstream, request) == Err::<UriParts, Seq<char>>(
            "upstream base_url has no host"@,
        ),
{
}

} // verus!
