use std::path::PathBuf;

use wol::cli::{Command, DeviceAddArgs, DeviceCommand, DeviceRemoveArgs, InitArgs, ServeArgs, WakeArgs};
use wol::commands::{execute, validate_name, CommandError, NameError, Outcome};
use wol::config::{compare_names, Config, DeviceConfig, DeviceMap, NameOrder};

fn device(mac: &str, host: &str, port: u16) -> DeviceConfig {
    DeviceConfig { mac: mac.to_string(), host: host.to_string(), port }
}

fn add(name: &str, mac: &str) -> Command {
    Command::Device(DeviceCommand::Add(DeviceAddArgs {
        name: name.to_string(),
        mac: mac.to_string(),
        host: "255.255.255.255".to_string(),
        port: 9,
    }))
}

#[test]
fn device_map_keeps_names_in_byte_order() {
    let mut map = DeviceMap::new();
    assert!(map.is_empty());
    assert!(map.insert("pc".to_string(), device("01", "h1", 1)).is_none());
    assert!(map.insert("Desk".to_string(), device("02", "h2", 2)).is_none());
    assert!(map.insert("desk".to_string(), device("03", "h3", 3)).is_none());
    assert!(map.insert("a".to_string(), device("04", "h4", 4)).is_none());
    let names: Vec<&str> = map.entries().iter().map(|(n, _)| n.as_str()).collect();
    assert_eq!(names, vec!["Desk", "a", "desk", "pc"]);
    assert_eq!(map.len(), 4);
}

#[test]
fn device_map_insert_replaces_and_returns_old() {
    let mut map = DeviceMap::new();
    map.insert("pc".to_string(), device("01", "h1", 1));
    let old = map.insert("pc".to_string(), device("02", "h2", 2)).unwrap();
    assert_eq!(old.mac, "01");
    assert_eq!(map.len(), 1);
    assert_eq!(map.get("pc").unwrap().mac, "02");
}

#[test]
fn device_map_remove_and_get() {
    let mut map = DeviceMap::new();
    map.insert("b".to_string(), device("0b", "h", 1));
    map.insert("a".to_string(), device("0a", "h", 1));
    map.insert("c".to_string(), device("0c", "h", 1));
    assert_eq!(map.remove("b").unwrap().mac, "0b");
    assert!(map.remove("b").is_none());
    assert!(map.get("b").is_none());
    assert_eq!(map.get("a").unwrap().mac, "0a");
    assert_eq!(map.get("c").unwrap().mac, "0c");
    assert!(map.get("").is_none());
    assert_eq!(map.len(), 2);
}

#[test]
fn compares_names_like_str() {
    assert_eq!(compare_names("a", "b"), NameOrder::Less);
    assert_eq!(compare_names("b", "a"), NameOrder::Greater);
    assert_eq!(compare_names("ab", "a"), NameOrder::Greater);
    assert_eq!(compare_names("", "a"), NameOrder::Less);
    assert_eq!(compare_names("é", "z"), NameOrder::Greater);
    assert_eq!(compare_names("same", "same"), NameOrder::Equal);
}

#[test]
fn validates_names() {
    assert_eq!(validate_name(""), Err(NameError::Empty));
    assert_eq!(validate_name("a/b"), Err(NameError::ContainsSlash));
    assert_eq!(validate_name("/"), Err(NameError::ContainsSlash));
    assert_eq!(validate_name("desktop"), Ok(()));
    assert_eq!(validate_name("bür o"), Ok(()));
    assert_eq!(NameError::Empty.message(), "device name cannot be empty");
    assert_eq!(NameError::ContainsSlash.message(), "device name cannot contain `/`");
}

#[test]
fn init_saves_server_settings() {
    let mut config = Config::default();
    let out = execute(
        &mut config,
        Command::Init(InitArgs {
            bind: "0.0.0.0:8443".to_string(),
            cert: PathBuf::from("/c.pem"),
            key: PathBuf::from("/k.pem"),
            token: "tok".to_string(),
        }),
    );
    assert!(matches!(out, Ok(Outcome::ServerSaved)));
    assert_eq!(config.server.bind.as_deref(), Some("0.0.0.0:8443"));
    assert_eq!(config.server.cert_path, Some(PathBuf::from("/c.pem")));
    assert_eq!(config.server.key_path, Some(PathBuf::from("/k.pem")));
    assert_eq!(config.server.bearer_token.as_deref(), Some("tok"));
    assert!(config.devices.is_empty());
}

#[test]
fn add_list_wake_remove() {
    let mut config = Config::default();
    assert!(matches!(execute(&mut config, Command::Device(DeviceCommand::List)), Ok(Outcome::NoDevices)));

    match execute(&mut config, add("desktop", "AA:BB:CC:DD:EE:FF")) {
        Ok(Outcome::DeviceSaved { name }) => assert_eq!(name, "desktop"),
        other => panic!("unexpected {:?}", other),
    }
    execute(&mut config, add("attic", "01:02:03:04:05:06")).unwrap();

    match execute(&mut config, Command::Device(DeviceCommand::List)) {
        Ok(Outcome::DeviceList { lines }) => assert_eq!(
            lines,
            vec![
                "attic\t01:02:03:04:05:06\t255.255.255.255:9".to_string(),
                "desktop\tAA:BB:CC:DD:EE:FF\t255.255.255.255:9".to_string(),
            ]
        ),
        other => panic!("unexpected {:?}", other),
    }

    match execute(&mut config, Command::Wake(WakeArgs { name: "desktop".to_string() })) {
        Ok(Outcome::Wake { name, device }) => {
            assert_eq!(name, "desktop");
            assert_eq!(device.mac, "AA:BB:CC:DD:EE:FF");
            assert_eq!(device.port, 9);
        }
        other => panic!("unexpected {:?}", other),
    }

    match execute(&mut config, Command::Device(DeviceCommand::Remove(DeviceRemoveArgs { name: "desktop".to_string() }))) {
        Ok(Outcome::DeviceRemoved { name }) => assert_eq!(name, "desktop"),
        other => panic!("unexpected {:?}", other),
    }
    match execute(&mut config, Command::Wake(WakeArgs { name: "desktop".to_string() })) {
        Err(CommandError::DeviceNotFound { name }) => assert_eq!(name, "desktop"),
        other => panic!("unexpected {:?}", other),
    }
    match execute(&mut config, Command::Device(DeviceCommand::Remove(DeviceRemoveArgs { name: "desktop".to_string() }))) {
        Err(CommandError::DeviceNotFound { name }) => assert_eq!(name, "desktop"),
        other => panic!("unexpected {:?}", other),
    }
    assert_eq!(config.devices.len(), 1);
}

#[test]
fn add_refuses_bad_names_and_keeps_table() {
    let mut config = Config::default();
    assert!(matches!(
        execute(&mut config, add("", "AA:BB:CC:DD:EE:FF")),
        Err(CommandError::InvalidName(NameError::Empty))
    ));
    assert!(matches!(
        execute(&mut config, add("a/b", "AA:BB:CC:DD:EE:FF")),
        Err(CommandError::InvalidName(NameError::ContainsSlash))
    ));
    assert!(config.devices.is_empty());
}

#[test]
fn add_updates_existing_device() {
    let mut config = Config::default();
    execute(&mut config, add("pc", "AA:BB:CC:DD:EE:FF")).unwrap();
    execute(&mut config, add("pc", "11:22:33:44:55:66")).unwrap();
    assert_eq!(config.devices.len(), 1);
    assert_eq!(config.devices.get("pc").unwrap().mac, "11:22:33:44:55:66");
}

#[test]
fn serve_passes_overrides() {
    let mut config = Config::default();
    match execute(
        &mut config,
        Command::Serve(ServeArgs { bind: Some("127.0.0.1:1".to_string()), cert: None, key: None, token: None }),
    ) {
        Ok(Outcome::Serve { overrides }) => {
            assert_eq!(overrides.bind.as_deref(), Some("127.0.0.1:1"));
            assert!(overrides.cert_path.is_none());
            assert!(overrides.key_path.is_none());
            assert!(overrides.bearer_token.is_none());
        }
        other => panic!("unexpected {:?}", other),
    }
}

#[test]
fn add_then_remove_restores_table() {
    let mut config = Config::default();
    execute(&mut config, add("b", "AA:BB:CC:DD:EE:FF")).unwrap();
    execute(&mut config, add("d", "AA:BB:CC:DD:EE:00")).unwrap();
    let before: Vec<(String, String)> =
        config.devices.entries().iter().map(|(n, d)| (n.clone(), d.mac.clone())).collect();
    execute(&mut config, add("c", "01:02:03:04:05:06")).unwrap();
    assert_eq!(config.devices.get("b").unwrap().mac, "AA:BB:CC:DD:EE:FF");
    assert_eq!(config.devices.get("d").unwrap().mac, "AA:BB:CC:DD:EE:00");
    execute(&mut config, Command::Device(DeviceCommand::Remove(DeviceRemoveArgs { name: "c".to_string() }))).unwrap();
    let after: Vec<(String, String)> =
        config.devices.entries().iter().map(|(n, d)| (n.clone(), d.mac.clone())).collect();
    assert_eq!(before, after);
}
