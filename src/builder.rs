use std::time::Duration;

use vstd::prelude::*;

verus! {

/// The latency a builder starts with, in milliseconds.
pub const DEFAULT_LATENCY_MS: u64 = 50;

/// An IP address, as its bytes in network order.
#[derive(Clone, Copy, Debug, PartialEq, Eq)]
pub enum IpAddress {
    V4([u8; 4]),
    V6([u8; 16]),
}

/// An IP address and a port.
#[derive(Clone, Copy, Debug, PartialEq, Eq)]
pub struct SocketAddress {
    pub ip: IpAddress,
    pub port: u16,
}

/// All IPv4 adapters, with a port that the system picks: `0.0.0.0:0`.
pub open spec fn unspecified_addr() -> SocketAddress {
    SocketAddress { ip: IpAddress::V4([0u8, 0u8, 0u8, 0u8]), port: 0 }
}

impl SocketAddress {
    /// All IPv4 adapters, with a port that the system picks: `0.0.0.0:0`.
    pub fn unspecified() -> (r: SocketAddress)
        ensures
            r == unspecified_addr(),
    {
        SocketAddress { ip: IpAddress::V4([0, 0, 0, 0]), port: 0 }
    }
}

/// Describes how this SRT entity will connect to the other.
#[derive(Clone, Copy, Debug, PartialEq, Eq)]
pub enum ConnInitMethod {
    /// Listens on the local socket for a caller that connects to it.
    Listen,
    /// Connects to a listener at the given address.
    Connect(SocketAddress),
    /// Meets another rendezvous entity, whose public address is given; for two
    /// entities that are both behind a NAT.
    Rendezvous(SocketAddress),
}

/// Why a builder cannot start a connection.
#[derive(Clone, Copy, Debug, PartialEq, Eq)]
pub enum BuilderError {
    /// The crypto key size is not 16, 24 or 32 bytes.
    InvalidCryptoSize(u8),
    /// A multiplexed server can only listen.
    NotListen,
}

/// Relies on `Clone` for `std::time::Duration`, a `Copy` type: the clone is the
/// same duration.
pub assume_specification[ <Duration as Clone>::clone ](d: &Duration) -> (r: Duration)
    ensures
        r == *d,
;

/// The settings of a socket to be built.
#[derive(Clone, Debug)]
pub struct SrtSocketBuilder {
    local_addr: SocketAddress,
    conn_type: ConnInitMethod,
    latency: Duration,
    crypto: Option<(u8, String)>,
}

/// What the handshake is to be started with.
#[derive(Debug, PartialEq, Eq)]
pub enum HandshakePlan {
    /// Wait for a caller.
    Listen { socket_id: u32, latency: Duration },
    /// Call the listener at `remote`.
    Connect {
        remote: SocketAddress,
        socket_id: u32,
        local_ip: IpAddress,
        latency: Duration,
        crypto: Option<(u8, String)>,
    },
    /// Meet the rendezvous peer at `remote_public`.
    Rendezvous {
        socket_id: u32,
        local_ip: IpAddress,
        remote_public: SocketAddress,
        latency: Duration,
    },
}

/// A crypto key size that the handshake accepts, or no crypto at all.
pub open spec fn crypto_size_valid(crypto: Option<(u8, String)>) -> bool {
    match crypto {
        None => true,
        Some((size, _)) => size == 16 || size == 24 || size == 32,
    }
}

/// The crypto key size that was set, or zero.
pub open spec fn crypto_size(crypto: Option<(u8, String)>) -> u8 {
    match crypto {
        None => 0,
        Some((size, _)) => size,
    }
}

/// Relies on `rand::random`: a socket id drawn at random; nothing is known of it.
#[verifier::external_body]
fn random_socket_id() -> (r: u32) {
    rand::random()
}

/// The duration of `ms` milliseconds.
pub uninterp spec fn duration_from_millis(ms: u64) -> Duration;

/// Relies on `std::time::Duration::from_millis`: the duration depends on `ms`
/// alone, and the call does not fail.
#[verifier::external_body]
fn millis(ms: u64) -> (r: Duration)
    ensures
        r == duration_from_millis(ms),
{
    Duration::from_millis(ms)
}

impl SrtSocketBuilder {
    /// The local address to bind to.
    pub closed spec fn spec_local_addr(self) -> SocketAddress {
        self.local_addr
    }

    /// How this entity will connect to the other.
    pub closed spec fn spec_conn_type(self) -> ConnInitMethod {
        self.conn_type
    }

    /// The latency this entity proposes.
    pub closed spec fn spec_latency(self) -> Duration {
        self.latency
    }

    /// The crypto key size and passphrase, if any.
    pub closed spec fn spec_crypto(self) -> Option<(u8, String)> {
        self.crypto
    }

    /// A builder for `conn_type` that binds to `0.0.0.0:0`, with the default
    /// latency and no crypto.
    pub fn new(conn_type: ConnInitMethod) -> (r: SrtSocketBuilder)
        ensures
            r.spec_local_addr() == unspecified_addr(),
            r.spec_conn_type() == conn_type,
            r.spec_latency() == duration_from_millis(DEFAULT_LATENCY_MS),
            r.spec_crypto() is None,
    {
        SrtSocketBuilder {
            local_addr: SocketAddress::unspecified(),
            conn_type,
            latency: millis(DEFAULT_LATENCY_MS),
            crypto: None,
        }
    }

    /// A builder that listens; see `new`.
    pub fn new_listen() -> (r: SrtSocketBuilder)
        ensures
            r.spec_local_addr() == unspecified_addr(),
            r.spec_conn_type() == ConnInitMethod::Listen,
            r.spec_latency() == duration_from_millis(DEFAULT_LATENCY_MS),
            r.spec_crypto() is None,
    {
        SrtSocketBuilder::new(ConnInitMethod::Listen)
    }

    /// A builder that calls the listener at `to`; see `new`.
    pub fn new_connect(to: SocketAddress) -> (r: SrtSocketBuilder)
        ensures
            r.spec_local_addr() == unspecified_addr(),
            r.spec_conn_type() == ConnInitMethod::Connect(to),
            r.spec_latency() == duration_from_millis(DEFAULT_LATENCY_MS),
            r.spec_crypto() is None,
    {
        SrtSocketBuilder::new(ConnInitMethod::Connect(to))
    }

    /// A builder that meets the rendezvous peer whose public address is `to`; see
    /// `new`.
    pub fn new_rendezvous(to: SocketAddress) -> (r: SrtSocketBuilder)
        ensures
            r.spec_local_addr() == unspecified_addr(),
            r.spec_conn_type() == ConnInitMethod::Rendezvous(to),
            r.spec_latency() == duration_from_millis(DEFAULT_LATENCY_MS),
            r.spec_crypto() is None,
    {
        SrtSocketBuilder::new(ConnInitMethod::Rendezvous(to))
    }

    /// How this entity will connect to the other.
    pub fn conn_type(&self) -> (r: &ConnInitMethod)
        ensures
            *r == self.spec_conn_type(),
    {
        &self.conn_type
    }

    /// Binds to the adapter at `local_addr` only, keeping the port.
    pub fn local_addr(self, local_addr: IpAddress) -> (r: SrtSocketBuilder)
        ensures
            r.spec_local_addr() == (SocketAddress { ip: local_addr, ..self.spec_local_addr() }),
            r.spec_conn_type() == self.spec_conn_type(),
            r.spec_latency() == self.spec_latency(),
            r.spec_crypto() == self.spec_crypto(),
    {
        let mut b = self;
        b.local_addr.ip = local_addr;
        b
    }

    /// Binds to `port`, keeping the adapter.
    pub fn local_port(self, port: u16) -> (r: SrtSocketBuilder)
        ensures
            r.spec_local_addr() == (SocketAddress { port, ..self.spec_local_addr() }),
            r.spec_conn_type() == self.spec_conn_type(),
            r.spec_latency() == self.spec_latency(),
            r.spec_crypto() == self.spec_crypto(),
    {
        let mut b = self;
        b.local_addr.port = port;
        b
    }

    /// Sets the latency: the more of it, the more time there is to recover lost
    /// packets.
    pub fn latency(self, latency: Duration) -> (r: SrtSocketBuilder)
        ensures
            r.spec_local_addr() == self.spec_local_addr(),
            r.spec_conn_type() == self.spec_conn_type(),
            r.spec_latency() == latency,
            r.spec_crypto() == self.spec_crypto(),
    {
        let mut b = self;
        b.latency = latency;
        b
    }

    /// Sets the crypto key size, in bytes, and the passphrase. The size is checked
    /// when the handshake is planned.
    pub fn crypto(self, size: u8, passphrase: String) -> (r: SrtSocketBuilder)
        ensures
            r.spec_local_addr() == self.spec_local_addr(),
            r.spec_conn_type() == self.spec_conn_type(),
            r.spec_latency() == self.spec_latency(),
            r.spec_crypto() == Some((size, passphrase)),
    {
        let mut b = self;
        b.crypto = Some((size, passphrase));
        b
    }

    /// The handshake that this builder asks for, with `socket_id` as the local
    /// socket id.
    pub open spec fn spec_handshake_plan(self, socket_id: u32) -> Result<
        HandshakePlan,
        BuilderError,
    > {
        if !crypto_size_valid(self.spec_crypto()) {
            Err(BuilderError::InvalidCryptoSize(crypto_size(self.spec_crypto())))
        } else {
            match self.spec_conn_type() {
                ConnInitMethod::Listen => Ok(
                    HandshakePlan::Listen { socket_id, latency: self.spec_latency() },
                ),
                ConnInitMethod::Connect(remote) => Ok(
                    HandshakePlan::Connect {
                        remote,
                        socket_id,
                        local_ip: self.spec_local_addr().ip,
                        latency: self.spec_latency(),
                        crypto: self.spec_crypto(),
                    },
                ),
                ConnInitMethod::Rendezvous(remote_public) => Ok(
                    HandshakePlan::Rendezvous {
                        socket_id,
                        local_ip: self.spec_local_addr().ip,
                        remote_public,
                        latency: self.spec_latency(),
                    },
                ),
            }
        }
    }

    /// Checks the crypto size and says which handshake to run, with `socket_id`
    /// as the local socket id.
    pub fn handshake_plan(self, socket_id: u32) -> (r: Result<HandshakePlan, BuilderError>)
        ensures
            r == self.spec_handshake_plan(socket_id),
    {
        match &self.crypto {
            None => {},
            Some((size, _)) => {
                if *size != 16 && *size != 24 && *size != 32 {
                    return Err(BuilderError::InvalidCryptoSize(*size));
                }
            },
        }
        match self.conn_type {
            ConnInitMethod::Listen => Ok(
                HandshakePlan::Listen { socket_id, latency: self.latency },
            ),
            ConnInitMethod::Connect(remote) => Ok(
                HandshakePlan::Connect {
                    remote,
                    socket_id,
                    local_ip: self.local_addr.ip,
                    latency: self.latency,
                    crypto: self.crypto,
                },
            ),
            ConnInitMethod::Rendezvous(remote_public) => Ok(
                HandshakePlan::Rendezvous {
                    socket_id,
                    local_ip: self.local_addr.ip,
                    remote_public,
                    latency: self.latency,
                },
            ),
        }
    }

    /// Plans the handshake with a local socket id drawn at random.
    pub fn connect_plan(self) -> (r: Result<HandshakePlan, BuilderError>)
        ensures
            exists|socket_id: u32| r == self.spec_handshake_plan(socket_id),
    {
        let socket_id = random_socket_id();
        self.handshake_plan(socket_id)
    }

    /// The address and latency of a multiplexed server; only a listener can be
    /// one.
    pub fn multiplex_settings(self) -> (r: Result<(SocketAddress, Duration), BuilderError>)
        ensures
            self.spec_conn_type() is Listen ==> r == Ok::<(SocketAddress, Duration), BuilderError>(
                (self.spec_local_addr(), self.spec_latency()),
            ),
            !(self.spec_conn_type() is Listen) ==> r == Err::<
                (SocketAddress, Duration),
                BuilderError,
            >(BuilderError::NotListen),
    {
        match self.conn_type {
            ConnInitMethod::Listen => Ok((self.local_addr, self.latency)),
            _ => Err(BuilderError::NotListen),
        }
    }
}

} // verus!
