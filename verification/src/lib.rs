//! The core of an EasyConnect client: configuration, routing, name lookups, the gateway's
//! wire formats, and the decisions of a local SOCKS5 server in front of the tunnel.

pub mod addr;
pub mod app;
pub mod auth;
pub mod config;
pub mod dns_resolver;
pub mod endpoint;
pub mod error;
pub mod netstack;
pub mod output;
pub mod protocol;
pub mod protocol_session;
pub mod protocol_wire;
pub mod route_table;
pub mod routing;
pub mod socks;
pub mod socks_proxy;
pub mod socks_wire;
pub mod stream;
pub mod text;
pub mod token;

pub use app::EasyConnectApp;
pub use config::AppConfig;
pub use error::{EcError, EcResult};
pub use protocol::{send_tunnel_packet, take_tunnel_packet_receiver};
