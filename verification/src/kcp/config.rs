//! KCP configuration: conservative kcp-go defaults.
//!
//! These are the raw kcp-go library defaults (nodelay=0, interval=40, no FEC).
//! For the aggressive defaults (nodelay=1, interval=20, resend=2, nc=1, FEC
//! enabled), use `default_kcp_config()` instead.
use vstd::prelude::*;

verus! {

/// Size of the socket driver's receive buffer: no longer datagram is read whole.
pub const DRIVER_RECV_BUF_SIZE: usize = 1500;

/// What FEC adds to an MTU-sized segment on the wire: the FEC header (SEQID 4B
/// + TYPE 2B) and the SIZE field of each shard (2B).
pub const KCP_WIRE_OVERHEAD: usize = 8;

/// Maximum configurable MTU. The largest wire packet that a peer with the same
/// config can send, `mtu + KCP_WIRE_OVERHEAD`, must fit the receive buffer.
pub const MAX_KCP_MTU: usize = 1492;

/// KCP no-delay configuration.
#[derive(Debug, Clone, Copy, PartialEq, Eq, Structural)]
pub struct KcpNoDelayConfig {
    /// Enable nodelay mode.
    pub nodelay: bool,
    /// Internal update interval in milliseconds.
    pub interval: i32,
    /// Fast retransmit threshold (0 = disabled).
    pub resend: i32,
    /// Disable congestion control (nc = "no congestion").
    pub nc: bool,
}

impl Default for KcpNoDelayConfig {
    /// kcp-go library defaults: nodelay=0, interval=40, resend=0, nc=0.
    fn default() -> (r: KcpNoDelayConfig)
        ensures
            r == (KcpNoDelayConfig { nodelay: false, interval: 40, resend: 0, nc: false }),
    {
        KcpNoDelayConfig { nodelay: false, interval: 40, resend: 0, nc: false }
    }
}

/// KCP transport configuration.
#[derive(Debug, Clone, Copy)]
pub struct KcpConfig {
    /// Maximum transmission unit.
    pub mtu: usize,
    /// No-delay / retransmit / congestion parameters.
    pub nodelay: KcpNoDelayConfig,
    /// Send and receive window sizes.
    pub wnd_size: (u16, u16),
    /// Number of FEC data shards (0 = FEC disabled).
    pub data_shards: usize,
    /// Number of FEC parity shards (0 = FEC disabled).
    pub parity_shards: usize,
    /// Stream mode: each KCP output produces a single contiguous datagram.
    pub stream: bool,
}

impl Default for KcpConfig {
    /// Conservative defaults: no FEC, no nodelay, mtu=1350, wnd=1024.
    fn default() -> (r: KcpConfig)
        ensures
            r == (KcpConfig {
                mtu: 1350,
                nodelay: KcpNoDelayConfig { nodelay: false, interval: 40, resend: 0, nc: false },
                wnd_size: (1024, 1024),
                data_shards: 0,
                parity_shards: 0,
                stream: true,
            }),
    {
        KcpConfig {
            mtu: 1350,
            nodelay: KcpNoDelayConfig::default(),
            wnd_size: (1024, 1024),
            data_shards: 0,
            parity_shards: 0,
            stream: true,
        }
    }
}

impl KcpConfig {
    /// Whether the configuration asks for FEC.
    pub open spec fn has_fec(&self) -> bool {
        self.data_shards > 0 && self.parity_shards > 0
    }

    /// Whether a session can be made from the configuration: the Vandermonde
    /// code has at most 256 data shards, and the place of a shard in its group
    /// is found modulo the group's size in 32 bits.
    pub open spec fn usable(&self) -> bool {
        self.has_fec() ==> {
            &&& self.data_shards <= 256
            &&& self.data_shards + self.parity_shards <= usize::MAX
            &&& (self.data_shards + self.parity_shards) % 0x1_0000_0000 != 0
        }
    }

    /// The configuration with `mtu` clamped to `MAX_KCP_MTU`, so that no wire
    /// packet of a session exceeds the receive buffer of the peer's driver.
    pub fn clamped(self) -> (r: KcpConfig)
        ensures
            r == (KcpConfig {
                mtu: if self.mtu > MAX_KCP_MTU {
                    MAX_KCP_MTU
                } else {
                    self.mtu
                },
                ..self
            }),
            r.mtu + KCP_WIRE_OVERHEAD <= DRIVER_RECV_BUF_SIZE,
    {
        let mut config = self;
        if config.mtu > MAX_KCP_MTU {
            config.mtu = MAX_KCP_MTU;
        }
        config
    }
}

/// The aggressive defaults: nodelay=1, interval=20, resend=2, nc=1 with FEC
/// (10,3). This differs from `KcpConfig::default()`, which has the
/// conservative kcp-go library defaults.
pub fn default_kcp_config() -> (r: KcpConfig)
    ensures
        r == (KcpConfig {
            mtu: 1350,
            nodelay: KcpNoDelayConfig { nodelay: true, interval: 20, resend: 2, nc: true },
            wnd_size: (1024, 1024),
            data_shards: 10,
            parity_shards: 3,
            stream: true,
        }),
        r.usable(),
{
    KcpConfig {
        mtu: 1350,
        nodelay: KcpNoDelayConfig { nodelay: true, interval: 20, resend: 2, nc: true },
        wnd_size: (1024, 1024),
        data_shards: 10,
        parity_shards: 3,
        stream: true,
    }
}

/// The configuration for client-side dialing: the FEC parameters of the server
/// (10,3), without which FEC-wrapped packets would be unparseable.
pub fn default_kcp_client_config() -> (r: KcpConfig)
    ensures
        r == (KcpConfig {
            mtu: 1350,
            nodelay: KcpNoDelayConfig { nodelay: true, interval: 20, resend: 2, nc: true },
            wnd_size: (1024, 1024),
            data_shards: 10,
            parity_shards: 3,
            stream: true,
        }),
        r.usable(),
{
    default_kcp_config()
}

} // verus!
