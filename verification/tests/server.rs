use std::path::PathBuf;

use wol::config::{Config, DeviceConfig, ServerConfig};
use wol::server::{
    authorize, build_override_server_config, device_summary, health, init_server_config,
    list_devices, merge_server_config, method_not_allowed, not_found, require_server_settings,
    wake, wake_sent, ApiError, AppState, ServeConfigError,
};

fn state() -> AppState {
    let mut config = Config::default();
    config.devices.insert(
        "desktop".to_string(),
        DeviceConfig { mac: "AA:BB:CC:DD:EE:FF".to_string(), host: "192.168.1.255".to_string(), port: 9 },
    );
    config.devices.insert(
        "attic".to_string(),
        DeviceConfig { mac: "01:02:03:04:05:06".to_string(), host: "10.0.0.255".to_string(), port: 7 },
    );
    AppState { config, bearer_token: "super-secret-token".to_string() }
}

fn h(bytes: &[u8]) -> Option<&[u8]> {
    Some(bytes)
}

fn refused(res: Result<(), ApiError>) -> (u16, String) {
    let e = res.unwrap_err();
    (e.status, e.message)
}

#[test]
fn authorize_cases() {
    let token = "super-secret-token";
    assert!(authorize(h(b"Bearer super-secret-token"), token).is_ok());
    assert_eq!(refused(authorize(None, token)), (401, "missing Authorization header".to_string()));
    assert_eq!(
        refused(authorize(h(b"Bearer caf\xc3\xa9"), token)),
        (401, "invalid Authorization header".to_string())
    );
    assert_eq!(
        refused(authorize(h(b"Bearer \x7f"), token)),
        (401, "invalid Authorization header".to_string())
    );
    assert_eq!(
        refused(authorize(h(b"Basic super-secret-token"), token)),
        (401, "expected Bearer token".to_string())
    );
    assert_eq!(
        refused(authorize(h(b"bearer super-secret-token"), token)),
        (401, "expected Bearer token".to_string())
    );
    assert_eq!(
        refused(authorize(h(b"Bearer wrong"), token)),
        (401, "invalid bearer token".to_string())
    );
    assert_eq!(
        refused(authorize(h(b"Bearer super-secret-token "), token)),
        (401, "invalid bearer token".to_string())
    );
    assert!(authorize(h(b"Bearer \ttab"), "\ttab").is_ok());
}

#[test]
fn health_requires_token() {
    let s = state();
    assert_eq!(health(&s, h(b"Bearer super-secret-token")).unwrap().status, "ok");
    let e = health(&s, None).unwrap_err();
    assert_eq!(e.status, 401);
}

#[test]
fn lists_devices_in_name_order() {
    let s = state();
    let r = list_devices(&s, h(b"Bearer super-secret-token")).unwrap();
    let names: Vec<&str> = r.devices.iter().map(|d| d.name.as_str()).collect();
    assert_eq!(names, vec!["attic", "desktop"]);
    assert_eq!(r.devices[1].mac, "AA:BB:CC:DD:EE:FF");
    assert_eq!(r.devices[1].host, "192.168.1.255");
    assert_eq!(r.devices[1].port, 9);
    assert_eq!(list_devices(&s, h(b"Bearer nope")).unwrap_err().message, "invalid bearer token");
}

#[test]
fn wake_finds_device_or_404() {
    let s = state();
    let d = wake(&s, h(b"Bearer super-secret-token"), "attic").unwrap();
    assert_eq!(d.mac, "01:02:03:04:05:06");
    assert_eq!(d.port, 7);
    let e = wake(&s, h(b"Bearer super-secret-token"), "garage").unwrap_err();
    assert_eq!(e.status, 404);
    assert_eq!(e.message, "unknown device: garage");
    let e = wake(&s, None, "attic").unwrap_err();
    assert_eq!(e.status, 401);
}

#[test]
fn wake_sent_answers() {
    let d = DeviceConfig { mac: "m".to_string(), host: "h".to_string(), port: 9 };
    let r = wake_sent("pc".to_string(), d.clone(), Ok(())).unwrap();
    assert_eq!(r.status, "sent");
    assert_eq!(r.name, "pc");
    assert_eq!(r.host, "h");
    assert_eq!(r.port, 9);
    assert_eq!(r.mac, "m");
    let e = wake_sent("pc".to_string(), d, Err("boom".to_string())).unwrap_err();
    assert_eq!(e.status, 500);
    assert_eq!(e.message, "boom");
}

#[test]
fn fallback_errors() {
    let e = method_not_allowed();
    assert_eq!((e.status, e.message.as_str()), (405, "method not allowed"));
    let e = not_found();
    assert_eq!((e.status, e.message.as_str()), (404, "route not found"));
    assert_eq!(ApiError::unauthorized("x".to_string()).status, 401);
    assert_eq!(ApiError::not_found("x".to_string()).status, 404);
    assert_eq!(ApiError::internal("x".to_string()).status, 500);
    assert_eq!(ApiError::method_not_allowed("x".to_string()).status, 405);
}

#[test]
fn summary_line_format() {
    let d = DeviceConfig { mac: "AA:BB:CC:DD:EE:FF".to_string(), host: "192.168.1.255".to_string(), port: 9 };
    assert_eq!(device_summary("desktop", &d), "desktop\tAA:BB:CC:DD:EE:FF\t192.168.1.255:9");
    let d = DeviceConfig { mac: "m".to_string(), host: "h".to_string(), port: 65535 };
    assert_eq!(device_summary("x", &d), "x\tm\th:65535");
    let d = DeviceConfig { mac: "m".to_string(), host: "h".to_string(), port: 0 };
    assert_eq!(device_summary("x", &d), "x\tm\th:0");
    let d = DeviceConfig { mac: "m".to_string(), host: "h".to_string(), port: 10 };
    assert_eq!(device_summary("x", &d), "x\tm\th:10");
}

#[test]
fn merge_prefers_overrides() {
    let base = init_server_config(
        "0.0.0.0:8443".to_string(),
        PathBuf::from("/base.pem"),
        PathBuf::from("/base.key"),
        "base".to_string(),
    );
    let overrides = build_override_server_config(Some("127.0.0.1:9000".to_string()), None, Some(PathBuf::from("/o.key")), None);
    let m = merge_server_config(&base, &overrides);
    assert_eq!(m.bind.as_deref(), Some("127.0.0.1:9000"));
    assert_eq!(m.cert_path, Some(PathBuf::from("/base.pem")));
    assert_eq!(m.key_path, Some(PathBuf::from("/o.key")));
    assert_eq!(m.bearer_token.as_deref(), Some("base"));
}

#[test]
fn init_then_serve_uses_saved_settings() {
    let base = init_server_config(
        "0.0.0.0:8443".to_string(),
        PathBuf::from("/c.pem"),
        PathBuf::from("/k.pem"),
        "tok".to_string(),
    );
    let s = require_server_settings(&base, &ServerConfig::default()).unwrap();
    assert_eq!(s.bind, "0.0.0.0:8443");
    assert_eq!(s.cert_path, PathBuf::from("/c.pem"));
    assert_eq!(s.key_path, PathBuf::from("/k.pem"));
    assert_eq!(s.bearer_token, "tok");
}

#[test]
fn missing_settings_in_order() {
    let empty = ServerConfig::default();
    assert_eq!(require_server_settings(&empty, &empty).unwrap_err(), ServeConfigError::MissingBind);
    let only_bind = build_override_server_config(Some("b".to_string()), None, None, None);
    assert_eq!(require_server_settings(&empty, &only_bind).unwrap_err(), ServeConfigError::MissingCertPath);
    let no_key = build_override_server_config(Some("b".to_string()), Some(PathBuf::from("c")), None, Some("t".to_string()));
    assert_eq!(require_server_settings(&empty, &no_key).unwrap_err(), ServeConfigError::MissingKeyPath);
    let no_token = build_override_server_config(Some("b".to_string()), Some(PathBuf::from("c")), Some(PathBuf::from("k")), None);
    assert_eq!(require_server_settings(&no_token, &empty).unwrap_err(), ServeConfigError::MissingBearerToken);
    assert_eq!(
        ServeConfigError::MissingBind.message(),
        "missing server bind address; run `wol init` or pass --bind"
    );
}
