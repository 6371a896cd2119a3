//! The commands of the `wol` program, as plain values.
use std::path::PathBuf;
use vstd::prelude::*;

verus! {

/// A parsed command line.
#[derive(Debug)]
pub struct Cli {
    pub command: Command,
}

/// What the program is asked to do.
#[derive(Debug)]
pub enum Command {
    /// Create or update the server settings in the config file.
    Init(InitArgs),
    /// Manage saved devices.
    Device(DeviceCommand),
    /// Send a WOL packet to a saved device.
    Wake(WakeArgs),
    /// Start the HTTPS API server.
    Serve(ServeArgs),
}

/// Server settings to save.
#[derive(Debug)]
pub struct InitArgs {
    /// Address the HTTPS server should bind to.
    pub bind: String,
    /// Path to a PEM encoded certificate.
    pub cert: PathBuf,
    /// Path to a PEM encoded private key.
    pub key: PathBuf,
    /// Bearer token required by the API.
    pub token: String,
}

/// Operations on the saved devices.
#[derive(Debug)]
pub enum DeviceCommand {
    /// Add or update a device entry.
    Add(DeviceAddArgs),
    /// List saved devices.
    List,
    /// Remove a saved device.
    Remove(DeviceRemoveArgs),
}

/// A device to save.
#[derive(Debug)]
pub struct DeviceAddArgs {
    pub name: String,
    /// Target MAC address like AA:BB:CC:DD:EE:FF.
    pub mac: String,
    /// Broadcast host used for the packet.
    pub host: String,
    /// UDP port used for the packet.
    pub port: u16,
}

/// A device to forget.
#[derive(Debug)]
pub struct DeviceRemoveArgs {
    pub name: String,
}

/// A device to wake.
#[derive(Debug)]
pub struct WakeArgs {
    pub name: String,
}

/// Overrides of the saved server settings.
#[derive(Debug)]
pub struct ServeArgs {
    /// Override the bind address saved in config.
    pub bind: Option<String>,
    /// Override the certificate path saved in config.
    pub cert: Option<PathBuf>,
    /// Override the key path saved in config.
    pub key: Option<PathBuf>,
    /// Override the bearer token saved in config.
    pub token: Option<String>,
}

} // verus!
