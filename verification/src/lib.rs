//! Wake-on-LAN: MAC parsing, magic packets, the saved device table and the
//! decisions of the command line and of the HTTPS control plane.
pub mod cli;
pub mod commands;
pub mod config;
pub mod mac;
pub mod server;
