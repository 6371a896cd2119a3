//! What each command of the `wol` program does to the configuration.
use crate::cli::{Command, DeviceCommand};
use crate::config::{Config, DeviceConfig, ServerConfig, entries_map, lemma_entries_map_value, name_lt, names_increasing};
use crate::server::{build_override_server_config, device_summary, init_server_config, summary_line};
use vstd::prelude::*;

verus! {

/// Why a device name was refused.
#[derive(Debug, Clone, Copy, PartialEq, Eq, Structural)]
pub enum NameError {
    Empty,
    ContainsSlash,
}

impl NameError {
    /// What to tell the user.
    pub fn message(&self) -> (res: &'static str)
        ensures
            res@ == match *self {
                NameError::Empty => "device name cannot be empty"@,
                NameError::ContainsSlash => "device name cannot contain `/`"@,
            },
    {
        match self {
            NameError::Empty => "device name cannot be empty",
            NameError::ContainsSlash => "device name cannot contain `/`",
        }
    }
}

/// Checks that a device name is not empty and holds no `/`, so that it can
/// stand as one segment of `/wake/{name}`.
pub fn validate_name(name: &str) -> (res: Result<(), NameError>)
    ensures
        name@.len() == 0 ==> res == Err::<(), NameError>(NameError::Empty),
        name@.len() != 0 && name@.contains('/') ==> res == Err::<(), NameError>(
            NameError::ContainsSlash,
        ),
        name@.len() != 0 && !name@.contains('/') ==> res is Ok,
{
    if name.is_empty() {
        return Err(NameError::Empty);
    }
    for c in it: name.chars()
        invariant
            it.seq() == name@,
            forall|j: int| 0 <= j < it.index() ==> it.seq()[j] != '/',
    {
        if c == '/' {
            return Err(NameError::ContainsSlash);
        }
    }
    Ok(())
}

/// What is left to do once a command has been decided: saving, printing,
/// sending or serving happen outside.
#[derive(Debug)]
pub enum Outcome {
    /// The server settings changed; save the file.
    ServerSaved,
    /// A device was saved under `name`; save the file.
    DeviceSaved { name: String },
    /// There is no device to list.
    NoDevices,
    /// The lines to print, one per device, in name order.
    DeviceList { lines: Vec<String> },
    /// The device `name` was removed; save the file.
    DeviceRemoved { name: String },
    /// Send the magic packet of `device`, saved as `name`.
    Wake { name: String, device: DeviceConfig },
    /// Start the server with these overrides of the saved settings.
    Serve { overrides: ServerConfig },
}

/// Why a command failed.
#[derive(Debug)]
pub enum CommandError {
    InvalidName(NameError),
    DeviceNotFound { name: String },
}

/// The configuration's devices and server settings are as they were.
pub open spec fn unchanged(before: &Config, after: &Config) -> bool {
    after.server == before.server && after.devices@ == before.devices@
}

/// The lines of `wol device list` for a table, in name order.
pub open spec fn listing_matches(lines: Seq<String>, devices: Map<Seq<char>, DeviceConfig>) -> bool {
    &&& lines.len() == devices.len()
    &&& exists|names: Seq<Seq<char>>|
        {
            &&& names.len() == lines.len()
            &&& forall|i: int, j: int| 0 <= i < j < names.len() ==> name_lt(#[trigger] names[i], #[trigger] names[j])
            &&& forall|i: int|
                0 <= i < names.len() ==> devices.contains_key(#[trigger] names[i]) && lines[i]@
                    == summary_line(names[i], devices[names[i]])
        }
}

/// Carries out the part of a command that decides: checks, changes to the
/// configuration, and what remains to be done.
pub fn execute(config: &mut Config, command: Command) -> (res: Result<Outcome, CommandError>)
    ensures
        match command {
            Command::Init(a) => {
                &&& final(config).server == (ServerConfig {
                    bind: Some(a.bind),
                    cert_path: Some(a.cert),
                    key_path: Some(a.key),
                    bearer_token: Some(a.token),
                })
                &&& final(config).devices@ == old(config).devices@
                &&& res matches Ok(Outcome::ServerSaved)
            },
            Command::Device(DeviceCommand::Add(a)) => if a.name@.len() == 0 {
                &&& unchanged(old(config), final(config))
                &&& res matches Err(CommandError::InvalidName(NameError::Empty))
            } else if a.name@.contains('/') {
                &&& unchanged(old(config), final(config))
                &&& res matches Err(CommandError::InvalidName(NameError::ContainsSlash))
            } else {
                &&& final(config).server == old(config).server
                &&& final(config).devices@ == old(config).devices@.insert(
                    a.name@,
                    DeviceConfig { mac: a.mac, host: a.host, port: a.port },
                )
                &&& res matches Ok(Outcome::DeviceSaved { name }) && name == a.name
            },
            Command::Device(DeviceCommand::List) => {
                &&& unchanged(old(config), final(config))
                &&& if old(config).devices@.len() == 0 {
                    res matches Ok(Outcome::NoDevices)
                } else {
                    res matches Ok(Outcome::DeviceList { lines }) && listing_matches(
                        lines@,
                        old(config).devices@,
                    )
                }
            },
            Command::Device(DeviceCommand::Remove(a)) => if old(config).devices@.contains_key(
                a.name@,
            ) {
                &&& final(config).server == old(config).server
                &&& final(config).devices@ == old(config).devices@.remove(a.name@)
                &&& res matches Ok(Outcome::DeviceRemoved { name }) && name == a.name
            } else {
                &&& unchanged(old(config), final(config))
                &&& res matches Err(CommandError::DeviceNotFound { name }) && name == a.name
            },
            Command::Wake(a) => {
                &&& unchanged(old(config), final(config))
                &&& if old(config).devices@.contains_key(a.name@) {
                    res matches Ok(Outcome::Wake { name, device }) && name == a.name && device
                        == old(config).devices@[a.name@]
                } else {
                    res matches Err(CommandError::DeviceNotFound { name }) && name == a.name
                }
            },
            Command::Serve(a) => {
                &&& unchanged(old(config), final(config))
                &&& res matches Ok(Outcome::Serve { overrides }) && overrides == (ServerConfig {
                    bind: a.bind,
                    cert_path: a.cert,
                    key_path: a.key,
                    bearer_token: a.token,
                })
            },
        },
{
    match command {
        Command::Init(a) => {
            config.server = init_server_config(a.bind, a.cert, a.key, a.token);
            Ok(Outcome::ServerSaved)
        },
        Command::Device(DeviceCommand::Add(a)) => {
            match validate_name(a.name.as_str()) {
                Err(e) => return Err(CommandError::InvalidName(e)),
                Ok(()) => {},
            }
            let name = a.name;
            let key = name.clone();
            config.devices.insert(key, DeviceConfig { mac: a.mac, host: a.host, port: a.port });
            Ok(Outcome::DeviceSaved { name })
        },
        Command::Device(DeviceCommand::List) => list(&*config),
        Command::Device(DeviceCommand::Remove(a)) => {
            match config.devices.remove(a.name.as_str()) {
                Some(_) => Ok(Outcome::DeviceRemoved { name: a.name }),
                None => {
                    assert(old(config).devices@.remove(a.name@) =~= old(config).devices@);
                    Err(CommandError::DeviceNotFound { name: a.name })
                },
            }
        },
        Command::Wake(a) => wake_target(&*config, a.name),
        Command::Serve(a) => {
            let overrides = build_override_server_config(a.bind, a.cert, a.key, a.token);
            Ok(Outcome::Serve { overrides })
        },
    }
}

fn list(config: &Config) -> (res: Result<Outcome, CommandError>)
    ensures
        if config.devices@.len() == 0 {
            res matches Ok(Outcome::NoDevices)
        } else {
            res matches Ok(Outcome::DeviceList { lines }) && listing_matches(lines@, config.devices@)
        },
{
    if config.devices.len() == 0 {
        Ok(Outcome::NoDevices)
    } else {
        Ok(Outcome::DeviceList { lines: list_lines(config) })
    }
}

fn wake_target(config: &Config, name: String) -> (res: Result<Outcome, CommandError>)
    ensures
        if config.devices@.contains_key(name@) {
            res matches Ok(Outcome::Wake { name: n, device }) && n == name && device
                == config.devices@[name@]
        } else {
            res matches Err(CommandError::DeviceNotFound { name: n }) && n == name
        },
{
    match config.devices.get(name.as_str()) {
        Some(device) => {
            let device = device.duplicate();
            Ok(Outcome::Wake { name, device })
        },
        None => Err(CommandError::DeviceNotFound { name }),
    }
}

/// One summary line per saved device, in name order.
fn list_lines(config: &Config) -> (lines: Vec<String>)
    ensures
        listing_matches(lines@, config.devices@),
{
    let entries = config.devices.entries();
    let count = config.devices.len();
    let mut lines: Vec<String> = Vec::new();
    let mut i: usize = 0;
    while i < entries.len()
        invariant
            i <= entries@.len(),
            entries@.len() == count,
            count == config.devices@.len(),
            names_increasing(entries@),
            entries_map(entries@) == config.devices@,
            lines@.len() == i,
            forall|j: int| 0 <= j < i ==> (#[trigger] lines@[j])@ == summary_line(entries@[j].0@, entries@[j].1),
        decreases entries@.len() - i,
    {
        let (name, device) = &entries[i];
        lines.push(device_summary(name.as_str(), device));
        i = i + 1;
    }
    proof {
        let names = Seq::new(entries@.len(), |k: int| entries@[k].0@);
        assert forall|k: int| 0 <= k < names.len() implies config.devices@.contains_key(#[trigger] names[k]) && lines@[k]@
            == summary_line(names[k], config.devices@[names[k]]) by {
            lemma_entries_map_value(entries@, k);
        }
        assert forall|a: int, b: int| 0 <= a < b < names.len() implies name_lt(#[trigger] names[a], #[trigger] names[b]) by {
        }
    }
    lines
}

/// A device saved by `wol device add` is the one that `wol wake` then finds
/// under its name.
pub proof fn law_added_device_is_found(
    devices: Map<Seq<char>, DeviceConfig>,
    name: Seq<char>,
    device: DeviceConfig,
)
    ensures
        devices.insert(name, device).contains_key(name),
        devices.insert(name, device)[name] == device,
{
}

/// Saving a device leaves every other name as it was.
pub proof fn law_add_keeps_others(
    devices: Map<Seq<char>, DeviceConfig>,
    name: Seq<char>,
    device: DeviceConfig,
    other: Seq<char>,
)
    requires
        other != name,
    ensures
        devices.insert(name, device).contains_key(other) == devices.contains_key(other),
        devices.contains_key(other) ==> devices.insert(name, device)[other] == devices[other],
{
}

/// After `wol device remove`, the name is no longer found.
pub proof fn law_removed_device_is_gone(devices: Map<Seq<char>, DeviceConfig>, name: Seq<char>)
    ensures
        !devices.remove(name).contains_key(name),
{
}

/// Adding a new name and removing it again gives back the table as it was.
pub proof fn law_add_then_remove_restores(
    devices: Map<Seq<char>, DeviceConfig>,
    name: Seq<char>,
    device: DeviceConfig,
)
    requires
        !devices.contains_key(name),
    ensures
        devices.insert(name, device).remove(name) == devices,
{
    assert(devices.insert(name, device).remove(name) =~= devices);
}

} // verus!
