//! Verified logic of a CarPlay and Android Auto bridge: the wire formats, the decision
//! machines and the provisioning rules behind the host helper and the dongle daemons.

pub mod aa;
pub mod aa_usb;
pub mod ballast;
pub mod bonds;
pub mod bootimg;
pub mod bootstrap;
pub mod bytes;
pub mod carplay;
pub mod config;
pub mod crc;
pub mod detect;
pub mod dhcp;
pub mod dongle;
pub mod firmware;
pub mod hci;
pub mod host;
pub mod host_messages;
pub mod iapd;
pub mod led;
pub mod mdns;
pub mod menu;
pub mod mfi;
pub mod mgmt;
pub mod names;
pub mod ncm;
pub mod payload;
pub mod phones;
pub mod provision;
pub mod sdp;
pub mod stock;
pub mod text;
pub mod tools;
pub mod tries;
pub mod wired;
