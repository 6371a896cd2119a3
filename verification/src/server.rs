//! Decisions of the HTTPS control plane: settings, authorization and the
//! answers of its endpoints.
use crate::config::{
    Config, DeviceConfig, ServerConfig, entries_map, lemma_entries_map_value, name_lt,
    names_increasing,
};
use std::path::PathBuf;
use vstd::prelude::*;
use vstd::string::StringSliceAdditionalSpecFns;
use vstd::utf8::*;

verus! {

/// `a` when it is set, else `b`.
pub open spec fn first_set<T>(a: Option<T>, b: Option<T>) -> Option<T> {
    if a is Some {
        a
    } else {
        b
    }
}

/// Settings given on the command line win over the saved ones, field by field.
pub open spec fn spec_merge(base: ServerConfig, overrides: ServerConfig) -> ServerConfig {
    ServerConfig {
        bind: first_set(overrides.bind, base.bind),
        cert_path: first_set(overrides.cert_path, base.cert_path),
        key_path: first_set(overrides.key_path, base.key_path),
        bearer_token: first_set(overrides.bearer_token, base.bearer_token),
    }
}

fn clone_opt_string(o: &Option<String>) -> (res: Option<String>)
    ensures
        res == *o,
{
    match o {
        Some(s) => Some(s.clone()),
        None => None,
    }
}

fn clone_opt_path(o: &Option<PathBuf>) -> (res: Option<PathBuf>)
    ensures
        res == *o,
{
    match o {
        Some(p) => Some(p.clone()),
        None => None,
    }
}

fn first_set_string(a: &Option<String>, b: &Option<String>) -> (res: Option<String>)
    ensures
        res == first_set(*a, *b),
{
    if a.is_some() {
        clone_opt_string(a)
    } else {
        clone_opt_string(b)
    }
}

fn first_set_path(a: &Option<PathBuf>, b: &Option<PathBuf>) -> (res: Option<PathBuf>)
    ensures
        res == first_set(*a, *b),
{
    if a.is_some() {
        clone_opt_path(a)
    } else {
        clone_opt_path(b)
    }
}

/// Combines the saved settings with the overrides; an override wins where it is set.
pub fn merge_server_config(base: &ServerConfig, overrides: &ServerConfig) -> (res: ServerConfig)
    ensures
        res == spec_merge(*base, *overrides),
        overrides.bind is Some ==> res.bind == overrides.bind,
        overrides.bind is None ==> res.bind == base.bind,
        overrides.cert_path is Some ==> res.cert_path == overrides.cert_path,
        overrides.cert_path is None ==> res.cert_path == base.cert_path,
        overrides.key_path is Some ==> res.key_path == overrides.key_path,
        overrides.key_path is None ==> res.key_path == base.key_path,
        overrides.bearer_token is Some ==> res.bearer_token == overrides.bearer_token,
        overrides.bearer_token is None ==> res.bearer_token == base.bearer_token,
{
    ServerConfig {
        bind: first_set_string(&overrides.bind, &base.bind),
        cert_path: first_set_path(&overrides.cert_path, &base.cert_path),
        key_path: first_set_path(&overrides.key_path, &base.key_path),
        bearer_token: first_set_string(&overrides.bearer_token, &base.bearer_token),
    }
}

/// The overrides that `wol serve` was given.
pub fn build_override_server_config(
    bind: Option<String>,
    cert: Option<PathBuf>,
    key: Option<PathBuf>,
    token: Option<String>,
) -> (res: ServerConfig)
    ensures
        res == (ServerConfig { bind, cert_path: cert, key_path: key, bearer_token: token }),
{
    ServerConfig { bind, cert_path: cert, key_path: key, bearer_token: token }
}

/// The settings that `wol init` saves: all of them set.
pub fn init_server_config(bind: String, cert: PathBuf, key: PathBuf, token: String) -> (res:
    ServerConfig)
    ensures
        res == (ServerConfig {
            bind: Some(bind),
            cert_path: Some(cert),
            key_path: Some(key),
            bearer_token: Some(token),
        }),
{
    ServerConfig {
        bind: Some(bind),
        cert_path: Some(cert),
        key_path: Some(key),
        bearer_token: Some(token),
    }
}

/// The settings the server needs, all present.
#[derive(Debug)]
pub struct ServeSettings {
    pub bind: String,
    pub cert_path: PathBuf,
    pub key_path: PathBuf,
    pub bearer_token: String,
}

/// A setting that the server needs and that neither the file nor the command line gave.
#[derive(Debug, Clone, Copy, PartialEq, Eq, Structural)]
pub enum ServeConfigError {
    MissingBind,
    MissingCertPath,
    MissingKeyPath,
    MissingBearerToken,
}

impl ServeConfigError {
    /// What to tell the user.
    pub fn message(&self) -> (res: &'static str)
        ensures
            res@ == match *self {
                ServeConfigError::MissingBind => "missing server bind address; run `wol init` or pass --bind"@,
                ServeConfigError::MissingCertPath => "missing TLS certificate path; run `wol init` or pass --cert"@,
                ServeConfigError::MissingKeyPath => "missing TLS key path; run `wol init` or pass --key"@,
                ServeConfigError::MissingBearerToken => "missing bearer token; run `wol init` or pass --token / WOL_BEARER_TOKEN"@,
            },
    {
        match self {
            ServeConfigError::MissingBind => "missing server bind address; run `wol init` or pass --bind",
            ServeConfigError::MissingCertPath => "missing TLS certificate path; run `wol init` or pass --cert",
            ServeConfigError::MissingKeyPath => "missing TLS key path; run `wol init` or pass --key",
            ServeConfigError::MissingBearerToken => "missing bearer token; run `wol init` or pass --token / WOL_BEARER_TOKEN",
        }
    }
}

/// Merges the settings and checks that all four are there, in the order
/// bind address, certificate, key, token; the first one missing is reported.
pub fn require_server_settings(base: &ServerConfig, overrides: &ServerConfig) -> (res: Result<
    ServeSettings,
    ServeConfigError,
>)
    ensures
        ({
            let m = spec_merge(*base, *overrides);
            match res {
                Ok(s) => m.bind == Some(s.bind) && m.cert_path == Some(s.cert_path) && m.key_path
                    == Some(s.key_path) && m.bearer_token == Some(s.bearer_token),
                Err(e) => if m.bind is None {
                    e == ServeConfigError::MissingBind
                } else if m.cert_path is None {
                    e == ServeConfigError::MissingCertPath
                } else if m.key_path is None {
                    e == ServeConfigError::MissingKeyPath
                } else {
                    m.bearer_token is None && e == ServeConfigError::MissingBearerToken
                },
            }
        }),
{
    let merged = merge_server_config(base, overrides);
    let bind = match merged.bind {
        Some(b) => b,
        None => return Err(ServeConfigError::MissingBind),
    };
    let cert_path = match merged.cert_path {
        Some(c) => c,
        None => return Err(ServeConfigError::MissingCertPath),
    };
    let key_path = match merged.key_path {
        Some(k) => k,
        None => return Err(ServeConfigError::MissingKeyPath),
    };
    let bearer_token = match merged.bearer_token {
        Some(t) => t,
        None => return Err(ServeConfigError::MissingBearerToken),
    };
    Ok(ServeSettings { bind, cert_path, key_path, bearer_token })
}

/// HTTP status of a refused request.
pub const STATUS_UNAUTHORIZED: u16 = 401;

pub const STATUS_NOT_FOUND: u16 = 404;

pub const STATUS_METHOD_NOT_ALLOWED: u16 = 405;

pub const STATUS_INTERNAL_SERVER_ERROR: u16 = 500;

/// An error answer of the API: a status and a message for the JSON body.
#[derive(Debug)]
pub struct ApiError {
    pub status: u16,
    pub message: String,
}

impl ApiError {
    pub fn unauthorized(message: String) -> (res: ApiError)
        ensures
            res.status == STATUS_UNAUTHORIZED,
            res.message == message,
    {
        ApiError { status: STATUS_UNAUTHORIZED, message }
    }

    pub fn not_found(message: String) -> (res: ApiError)
        ensures
            res.status == STATUS_NOT_FOUND,
            res.message == message,
    {
        ApiError { status: STATUS_NOT_FOUND, message }
    }

    pub fn internal(message: String) -> (res: ApiError)
        ensures
            res.status == STATUS_INTERNAL_SERVER_ERROR,
            res.message == message,
    {
        ApiError { status: STATUS_INTERNAL_SERVER_ERROR, message }
    }

    pub fn method_not_allowed(message: String) -> (res: ApiError)
        ensures
            res.status == STATUS_METHOD_NOT_ALLOWED,
            res.message == message,
    {
        ApiError { status: STATUS_METHOD_NOT_ALLOWED, message }
    }
}

/// The answer to a known route asked with another method.
pub fn method_not_allowed() -> (res: ApiError)
    ensures
        res.status == STATUS_METHOD_NOT_ALLOWED,
        res.message@ == "method not allowed"@,
{
    ApiError::method_not_allowed("method not allowed".to_string())
}

/// The answer to an unknown route.
pub fn not_found() -> (res: ApiError)
    ensures
        res.status == STATUS_NOT_FOUND,
        res.message@ == "route not found"@,
{
    ApiError::not_found("route not found".to_string())
}

/// `HeaderValue::to_str` (http) accepts exactly the values made of these bytes.
pub open spec fn is_visible_ascii(b: u8) -> bool {
    (32 <= b && b < 127) || b == 9
}

/// An `Authorization` value that reads as text.
pub open spec fn header_is_text(h: Seq<u8>) -> bool {
    forall|i: int| 0 <= i < h.len() ==> is_visible_ascii(#[trigger] h[i])
}

/// The bytes of `"Bearer "`.
pub open spec fn bearer_prefix() -> Seq<u8> {
    seq![0x42u8, 0x65u8, 0x61u8, 0x72u8, 0x65u8, 0x72u8, 0x20u8]
}

/// Why a request with the `Authorization` value `auth` is refused when the
/// server's token has the bytes `token`; `None` when it is let through.
pub open spec fn auth_failure(auth: Option<Seq<u8>>, token: Seq<u8>) -> Option<Seq<char>> {
    match auth {
        None => Some("missing Authorization header"@),
        Some(h) => if !header_is_text(h) {
            Some("invalid Authorization header"@)
        } else if !(h.len() >= 7 && h.take(7) == bearer_prefix()) {
            Some("expected Bearer token"@)
        } else if h.skip(7) != token {
            Some("invalid bearer token"@)
        } else {
            None
        },
    }
}

/// The bytes of an optional header value.
pub open spec fn header_bytes(auth: Option<&[u8]>) -> Option<Seq<u8>> {
    match auth {
        Some(h) => Some(h@),
        None => None,
    }
}

/// Whether a refused request got the answer that `auth_failure` gives.
pub open spec fn refused_as(e: ApiError, failure: Option<Seq<char>>) -> bool {
    e.status == STATUS_UNAUTHORIZED && failure == Some(e.message@)
}

fn is_text(h: &[u8]) -> (res: bool)
    ensures
        res == header_is_text(h@),
{
    let mut i: usize = 0;
    while i < h.len()
        invariant
            i <= h@.len(),
            forall|j: int| 0 <= j < i ==> is_visible_ascii(#[trigger] h@[j]),
        decreases h@.len() - i,
    {
        let b = h[i];
        if !((32 <= b && b < 127) || b == 9) {
            return false;
        }
        i = i + 1;
    }
    true
}

fn has_bearer_prefix(h: &[u8]) -> (res: bool)
    ensures
        res == (h@.len() >= 7 && h@.take(7) == bearer_prefix()),
{
    if h.len() < 7 {
        return false;
    }
    let ok = h[0] == 0x42 && h[1] == 0x65 && h[2] == 0x61 && h[3] == 0x72 && h[4] == 0x65 && h[5]
        == 0x72 && h[6] == 0x20;
    if ok {
        assert(h@.take(7) =~= bearer_prefix());
    } else {
        proof {
            let t = h@.take(7);
            assert(t[0] == h@[0] && t[1] == h@[1] && t[2] == h@[2] && t[3] == h@[3]);
            assert(t[4] == h@[4] && t[5] == h@[5] && t[6] == h@[6]);
            assert(t != bearer_prefix());
        }
    }
    ok
}

fn suffix_equals(h: &[u8], start: usize, token: &[u8]) -> (res: bool)
    requires
        start <= h@.len(),
    ensures
        res == (h@.skip(start as int) == token@),
{
    if h.len() - start != token.len() {
        assert(h@.skip(start as int).len() != token@.len());
        return false;
    }
    let mut i: usize = 0;
    while i < token.len()
        invariant
            start <= h@.len(),
            h@.len() - start == token@.len(),
            start + token@.len() == h.len(),
            i <= token@.len(),
            forall|j: int| 0 <= j < i ==> h@[start + j] == token@[j],
        decreases token@.len() - i,
    {
        if h[start + i] != token[i] {
            assert(h@.skip(start as int)[i as int] != token@[i as int]);
            return false;
        }
        i = i + 1;
    }
    assert(h@.skip(start as int) =~= token@);
    true
}

/// Lets a request through only with `Authorization: Bearer <token>`.
pub fn authorize(auth: Option<&[u8]>, expected_token: &str) -> (res: Result<(), ApiError>)
    ensures
        match res {
            Ok(()) => auth_failure(header_bytes(auth), expected_token.spec_bytes()) is None,
            Err(e) => refused_as(e, auth_failure(header_bytes(auth), expected_token.spec_bytes())),
        },
{
    let h = match auth {
        None => return Err(ApiError::unauthorized("missing Authorization header".to_string())),
        Some(h) => h,
    };
    if !is_text(h) {
        return Err(ApiError::unauthorized("invalid Authorization header".to_string()));
    }
    if !has_bearer_prefix(h) {
        return Err(ApiError::unauthorized("expected Bearer token".to_string()));
    }
    if suffix_equals(h, 7, expected_token.as_bytes()) {
        Ok(())
    } else {
        Err(ApiError::unauthorized("invalid bearer token".to_string()))
    }
}

/// What the endpoints read: the saved configuration and the token that every
/// request must carry.
pub struct AppState {
    pub config: Config,
    pub bearer_token: String,
}

/// The bytes of the server's token.
pub open spec fn token_bytes(state: &AppState) -> Seq<u8> {
    encode_utf8(state.bearer_token@)
}

/// Answer of `POST /healthz`.
#[derive(Debug)]
pub struct HealthResponse {
    pub status: &'static str,
}

/// One device in the answer of `POST /devices`.
#[derive(Debug)]
pub struct DeviceEntry {
    pub name: String,
    pub host: String,
    pub port: u16,
    pub mac: String,
}

/// Answer of `POST /devices`.
#[derive(Debug)]
pub struct DevicesResponse {
    pub devices: Vec<DeviceEntry>,
}

/// Answer of `POST /wake/{name}` once the packet went out.
#[derive(Debug)]
pub struct WakeResponse {
    pub status: &'static str,
    pub name: String,
    pub host: String,
    pub port: u16,
    pub mac: String,
}

/// `POST /healthz`: `ok` to an authorized caller.
pub fn health(state: &AppState, auth: Option<&[u8]>) -> (res: Result<HealthResponse, ApiError>)
    ensures
        match res {
            Ok(r) => auth_failure(header_bytes(auth), token_bytes(state)) is None && r.status@
                == "ok"@,
            Err(e) => refused_as(e, auth_failure(header_bytes(auth), token_bytes(state))),
        },
{
    authorize(auth, state.bearer_token.as_str())?;
    Ok(HealthResponse { status: "ok" })
}

/// `POST /devices`: every saved device, in name order, to an authorized caller.
pub fn list_devices(state: &AppState, auth: Option<&[u8]>) -> (res: Result<
    DevicesResponse,
    ApiError,
>)
    ensures
        match res {
            Ok(r) => {
                &&& auth_failure(header_bytes(auth), token_bytes(state)) is None
                &&& r.devices@.len() == state.config.devices@.len()
                &&& forall|i: int|
                    0 <= i < r.devices@.len() ==> {
                        let e = #[trigger] r.devices@[i];
                        &&& state.config.devices@.contains_key(e.name@)
                        &&& e.mac == state.config.devices@[e.name@].mac
                        &&& e.host == state.config.devices@[e.name@].host
                        &&& e.port == state.config.devices@[e.name@].port
                    }
                &&& forall|i: int, j: int|
                    0 <= i < j < r.devices@.len() ==> name_lt(
                        #[trigger] r.devices@[i].name@,
                        #[trigger] r.devices@[j].name@,
                    )
            },
            Err(e) => refused_as(e, auth_failure(header_bytes(auth), token_bytes(state))),
        },
{
    authorize(auth, state.bearer_token.as_str())?;
    let entries = state.config.devices.entries();
    let count = state.config.devices.len();
    let mut devices: Vec<DeviceEntry> = Vec::new();
    let mut i: usize = 0;
    while i < entries.len()
        invariant
            i <= entries@.len(),
            entries@.len() == count,
            count == state.config.devices@.len(),
            names_increasing(entries@),
            entries_map(entries@) == state.config.devices@,
            devices@.len() == i,
            forall|j: int|
                0 <= j < i ==> {
                    let e = #[trigger] devices@[j];
                    &&& e.name == entries@[j].0
                    &&& e.mac == entries@[j].1.mac
                    &&& e.host == entries@[j].1.host
                    &&& e.port == entries@[j].1.port
                },
        decreases entries@.len() - i,
    {
        let (name, device) = &entries[i];
        devices.push(
            DeviceEntry {
                name: name.clone(),
                host: device.host.clone(),
                port: device.port,
                mac: device.mac.clone(),
            },
        );
        i = i + 1;
    }
    proof {
        assert forall|j: int| 0 <= j < devices@.len() implies {
            let e = #[trigger] devices@[j];
            &&& state.config.devices@.contains_key(e.name@)
            &&& e.mac == state.config.devices@[e.name@].mac
            &&& e.host == state.config.devices@[e.name@].host
            &&& e.port == state.config.devices@[e.name@].port
        } by {
            lemma_entries_map_value(entries@, j);
        }
        assert forall|a: int, b: int| 0 <= a < b < devices@.len() implies name_lt(
            #[trigger] devices@[a].name@,
            #[trigger] devices@[b].name@,
        ) by {
            assert(devices@[a].name == entries@[a].0);
            assert(devices@[b].name == entries@[b].0);
        }
    }
    Ok(DevicesResponse { devices })
}

/// `POST /wake/{name}`, before the packet is sent: the device to wake, for an
/// authorized caller and a saved name.
pub fn wake(state: &AppState, auth: Option<&[u8]>, name: &str) -> (res: Result<
    DeviceConfig,
    ApiError,
>)
    ensures
        ({
            let failure = auth_failure(header_bytes(auth), token_bytes(state));
            match res {
                Ok(d) => failure is None && state.config.devices@.contains_key(name@) && d
                    == state.config.devices@[name@],
                Err(e) => if failure is Some {
                    refused_as(e, failure)
                } else {
                    &&& !state.config.devices@.contains_key(name@)
                    &&& e.status == STATUS_NOT_FOUND
                    &&& e.message@ == "unknown device: "@ + name@
                },
            }
        }),
{
    authorize(auth, state.bearer_token.as_str())?;
    match state.config.devices.get(name) {
        Some(device) => Ok(device.duplicate()),
        None => {
            let mut message = String::new();
            message.append("unknown device: ");
            message.append(name);
            Err(ApiError::not_found(message))
        },
    }
}

/// `POST /wake/{name}`, after the send: `sent` when it went out, else the
/// send's error as a server error.
pub fn wake_sent(name: String, device: DeviceConfig, sent: Result<(), String>) -> (res: Result<
    WakeResponse,
    ApiError,
>)
    ensures
        match sent {
            Ok(()) => res matches Ok(r) && r.status@ == "sent"@ && r.name == name && r.host
                == device.host && r.port == device.port && r.mac == device.mac,
            Err(m) => res matches Err(e) && e.status == STATUS_INTERNAL_SERVER_ERROR && e.message
                == m,
        },
{
    match sent {
        Ok(()) => Ok(
            WakeResponse {
                status: "sent",
                name,
                host: device.host,
                port: device.port,
                mac: device.mac,
            },
        ),
        Err(m) => Err(ApiError::internal(m)),
    }
}

/// The character of a decimal digit.
pub open spec fn digit_char(d: int) -> char {
    (48 + d) as char
}

/// The decimal numeral of `n`, without leading zeros.
pub open spec fn decimal(n: nat) -> Seq<char>
    decreases n,
{
    if n < 10 {
        seq![digit_char(n as int)]
    } else {
        decimal(n / 10).push(digit_char((n % 10) as int))
    }
}

fn digit_str(d: u16) -> (res: &'static str)
    requires
        d < 10,
    ensures
        res@ == seq![digit_char(d as int)],
{
    match d {
        0 => {
            proof {
                reveal_strlit("0");
            }
            "0"
        },
        1 => {
            proof {
                reveal_strlit("1");
            }
            "1"
        },
        2 => {
            proof {
                reveal_strlit("2");
            }
            "2"
        },
        3 => {
            proof {
                reveal_strlit("3");
            }
            "3"
        },
        4 => {
            proof {
                reveal_strlit("4");
            }
            "4"
        },
        5 => {
            proof {
                reveal_strlit("5");
            }
            "5"
        },
        6 => {
            proof {
                reveal_strlit("6");
            }
            "6"
        },
        7 => {
            proof {
                reveal_strlit("7");
            }
            "7"
        },
        8 => {
            proof {
                reveal_strlit("8");
            }
            "8"
        },
        _ => {
            proof {
                reveal_strlit("9");
            }
            "9"
        },
    }
}

fn push_decimal(out: &mut String, n: u16)
    ensures
        final(out)@ == old(out)@ + decimal(n as nat),
    decreases n,
{
    if n >= 10 {
        push_decimal(out, n / 10);
    }
    out.append(digit_str(n % 10));
    assert(out@ =~= old(out)@ + decimal(n as nat)) by {
        if n >= 10 {
            assert(decimal(n as nat) == decimal((n / 10) as nat).push(digit_char((n % 10) as int)));
        }
    }
}

/// The line `wol device list` prints for one device: name, MAC and
/// `host:port`, separated by tabs.
pub open spec fn summary_line(name: Seq<char>, device: DeviceConfig) -> Seq<char> {
    name + seq!['\t'] + device.mac@ + seq!['\t'] + device.host@ + seq![':'] + decimal(
        device.port as nat,
    )
}

/// Formats one device for `wol device list`.
pub fn device_summary(name: &str, device: &DeviceConfig) -> (res: String)
    ensures
        res@ == summary_line(name@, *device),
{
    proof {
        reveal_strlit("\t");
        reveal_strlit(":");
    }
    let mut out = String::new();
    out.append(name);
    out.append("\t");
    out.append(device.mac.as_str());
    out.append("\t");
    out.append(device.host.as_str());
    out.append(":");
    push_decimal(&mut out, device.port);
    assert(out@ =~= summary_line(name@, *device));
    out
}

/// A request is let through exactly when its `Authorization` value is text
/// and reads `Bearer ` followed by the server's token.
pub proof fn law_bearer_header(h: Seq<u8>, token: Seq<u8>)
    ensures
        auth_failure(Some(h), token) is None <==> header_is_text(h) && h == bearer_prefix()
            + token,
{
    if header_is_text(h) && h.len() >= 7 && h.take(7) == bearer_prefix() && h.skip(7) == token {
        assert(h =~= h.take(7) + h.skip(7));
    }
    if h == bearer_prefix() + token {
        assert(h.take(7) =~= bearer_prefix());
        assert(h.skip(7) =~= token);
    }
}

/// With a token made of visible characters, `Authorization: Bearer <token>`
/// is let through.
pub proof fn law_token_header_accepted(token: Seq<u8>)
    requires
        header_is_text(token),
    ensures
        auth_failure(Some(bearer_prefix() + token), token) is None,
{
    let h = bearer_prefix() + token;
    assert forall|i: int| 0 <= i < h.len() implies is_visible_ascii(#[trigger] h[i]) by {
        if i >= 7 {
            assert(h[i] == token[i - 7]);
        }
    }
    law_bearer_header(h, token);
}

/// After `wol init`, `wol serve` without overrides runs with the saved settings.
pub proof fn law_init_then_serve(bind: String, cert: PathBuf, key: PathBuf, token: String)
    ensures
        ({
            let saved = ServerConfig {
                bind: Some(bind),
                cert_path: Some(cert),
                key_path: Some(key),
                bearer_token: Some(token),
            };
            spec_merge(saved, ServerConfig::spec_empty()) == saved
        }),
{
}

/// Each setting given on the command line wins over the saved one; a saved
/// setting is used only where no override is given.
pub proof fn law_override_wins(base: ServerConfig, overrides: ServerConfig)
    ensures
        overrides.bind is Some ==> spec_merge(base, overrides).bind == overrides.bind,
        overrides.bind is None ==> spec_merge(base, overrides).bind == base.bind,
        overrides.cert_path is Some ==> spec_merge(base, overrides).cert_path
            == overrides.cert_path,
        overrides.cert_path is None ==> spec_merge(base, overrides).cert_path == base.cert_path,
        overrides.key_path is Some ==> spec_merge(base, overrides).key_path == overrides.key_path,
        overrides.key_path is None ==> spec_merge(base, overrides).key_path == base.key_path,
        overrides.bearer_token is Some ==> spec_merge(base, overrides).bearer_token
            == overrides.bearer_token,
        overrides.bearer_token is None ==> spec_merge(base, overrides).bearer_token
            == base.bearer_token,
{
}

/// A token whose bytes are all visible ASCII (`0x20..=0x7E`) or tabs is let
/// through when the request carries `Authorization: Bearer <token>`.
pub proof fn law_visible_token_accepted(token: Seq<u8>)
    requires
        forall|i: int|
            0 <= i < token.len() ==> (0x20 <= #[trigger] token[i] <= 0x7e || token[i] == 0x09),
    ensures
        auth_failure(
            Some(seq![0x42u8, 0x65u8, 0x61u8, 0x72u8, 0x65u8, 0x72u8, 0x20u8] + token),
            token,
        ) is None,
{
    assert(seq![0x42u8, 0x65u8, 0x61u8, 0x72u8, 0x65u8, 0x72u8, 0x20u8] =~= bearer_prefix());
    let h = bearer_prefix() + token;
    assert forall|i: int| 0 <= i < h.len() implies is_visible_ascii(#[trigger] h[i]) by {
        if i >= 7 {
            assert(h[i] == token[i - 7]);
        }
    }
    law_bearer_header(h, token);
}

/// A header value with a byte that is neither visible ASCII nor a tab is
/// refused as not being text, whatever the token.
pub proof fn law_non_text_header_refused(h: Seq<u8>, token: Seq<u8>, i: int)
    requires
        0 <= i < h.len(),
        !(0x20 <= h[i] <= 0x7e || h[i] == 0x09),
    ensures
        auth_failure(Some(h), token) == Some("invalid Authorization header"@),
{
}

/// The value of a numeral: each character stands for its code minus `'0'`.
pub open spec fn numeral_value(s: Seq<char>) -> int
    decreases s.len(),
{
    if s.len() == 0 {
        0
    } else {
        10 * numeral_value(s.drop_last()) + (s.last() as int - 48)
    }
}

/// The port in a listing line is the usual decimal numeral: digits `'0'..='9'`
/// only, no leading zero, and read back in base 10 it gives the number.
pub proof fn law_decimal_numeral(n: u16)
    ensures
        decimal(n as nat).len() >= 1,
        forall|i: int|
            0 <= i < decimal(n as nat).len() ==> 48 <= (#[trigger] decimal(n as nat)[i]) as int
                <= 57,
        numeral_value(decimal(n as nat)) == n as int,
        n > 0 ==> decimal(n as nat)[0] != '0',
{
    lemma_decimal(n as nat);
}

proof fn lemma_digit_char(d: int)
    requires
        0 <= d < 10,
    ensures
        digit_char(d) as int == 48 + d,
{
    assert(((48 + d) as char) as int == 48 + d);
}

proof fn lemma_decimal(n: nat)
    requires
        n < 65536,
    ensures
        decimal(n).len() >= 1,
        forall|i: int| 0 <= i < decimal(n).len() ==> 48 <= (#[trigger] decimal(n)[i]) as int <= 57,
        numeral_value(decimal(n)) == n as int,
        n > 0 ==> decimal(n)[0] != '0',
    decreases n,
{
    if n < 10 {
        lemma_digit_char(n as int);
        let s = decimal(n);
        assert(s.drop_last() =~= Seq::<char>::empty());
        assert(numeral_value(s.drop_last()) == 0);
    } else {
        lemma_decimal(n / 10);
        lemma_digit_char((n % 10) as int);
        let s = decimal(n);
        let r = decimal(n / 10);
        assert(s == r.push(digit_char((n % 10) as int)));
        assert(s.drop_last() =~= r);
        assert(s[0] == r[0]);
        assert forall|i: int| 0 <= i < s.len() implies 48 <= (#[trigger] s[i]) as int <= 57 by {
            if i < r.len() {
                assert(s[i] == r[i]);
            }
        }
    }
}

/// A listing line reads: the name, a tab, the MAC, a tab, the host, a colon,
/// and then only decimal digits, which read back as the port.
pub proof fn law_summary_line_fields(name: Seq<char>, device: DeviceConfig)
    ensures
        ({
            let line = summary_line(name, device);
            let n = name.len() as int;
            let m = device.mac@.len() as int;
            let h = device.host@.len() as int;
            let port = line.skip(n + m + h + 3);
            &&& line.take(n) == name
            &&& line[n] == '\t'
            &&& line.subrange(n + 1, n + 1 + m) == device.mac@
            &&& line[n + 1 + m] == '\t'
            &&& line.subrange(n + 2 + m, n + 2 + m + h) == device.host@
            &&& line[n + 2 + m + h] == ':'
            &&& port.len() >= 1
            &&& forall|i: int| 0 <= i < port.len() ==> 48 <= (#[trigger] port[i]) as int <= 57
            &&& numeral_value(port) == device.port as int
        }),
{
    let line = summary_line(name, device);
    let n = name.len() as int;
    let m = device.mac@.len() as int;
    let h = device.host@.len() as int;
    assert(line.take(n) =~= name);
    assert(line.subrange(n + 1, n + 1 + m) =~= device.mac@);
    assert(line.subrange(n + 2 + m, n + 2 + m + h) =~= device.host@);
    assert(line.skip(n + m + h + 3) =~= decimal(device.port as nat));
    law_decimal_numeral(device.port);
}

} // verus!
