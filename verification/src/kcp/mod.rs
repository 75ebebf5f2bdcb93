//! KCP transport: a reliable stream over UDP.
//!
//! The protocol state machine (`protocol`, aligned with kcp-go wire behavior)
//! and `kcp_compat::Fec` for forward error correction (GF(2^8) Vandermonde).
pub mod answers;
pub mod config;
pub mod datagrams;
pub mod delivery;
pub mod driver;
pub mod handover;
pub mod laws;
pub mod listener;
pub mod lossy;
pub mod model;
pub mod pace;
pub mod packing;
pub mod protocol;
pub mod recovery;
pub mod reliability;
pub mod routing;
pub mod session;
pub mod session_laws;
pub mod shards;
pub mod socket;
pub mod socket_laws;
pub mod stream;
pub mod validity;

pub use config::{default_kcp_client_config, default_kcp_config, KcpConfig, KcpNoDelayConfig};
pub use session::KcpSession;
pub use stream::KcpStream;
