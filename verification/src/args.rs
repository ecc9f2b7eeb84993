//! Settings that a process is started with.

use crate::message::{ClientAddress, SocketAddress};
use vstd::prelude::*;

verus! {

/// Settings of a server.
#[derive(Debug, PartialEq, Eq)]
pub struct ServerArgs {
    /// File to load the world from and save it to.
    pub save_file: String,
    /// Port to open the server on.
    pub port: u16,
}

impl Clone for ServerArgs {
    fn clone(&self) -> (copy: Self)
        ensures
            copy == *self,
    {
        ServerArgs { save_file: self.save_file.clone(), port: self.port }
    }
}

/// An internet address, as a number in network order.
#[derive(Copy, Clone, Debug, PartialEq, Eq, Structural)]
pub enum IpAddress {
    V4(u32),
    V6(u128),
}

/// Settings of a client.
#[derive(Copy, Clone, Debug, PartialEq, Eq, Structural)]
pub struct ClientArgs {
    /// Address of the server.
    pub server_ip: IpAddress,
    /// Port of the server.
    pub server_port: u16,
    /// Local port to bind; 0 leaves the choice to the system.
    pub client_port: u16,
}

/// What a process was asked to be.
#[derive(Debug, PartialEq, Eq)]
pub enum GameArgs {
    /// Server mode.
    Server(ServerArgs),
    /// Client mode.
    Client(ClientArgs),
}

impl Clone for GameArgs {
    fn clone(&self) -> (copy: Self)
        ensures
            copy == *self,
    {
        match self {
            GameArgs::Server(args) => GameArgs::Server(args.clone()),
            GameArgs::Client(args) => GameArgs::Client(*args),
        }
    }
}

impl ClientArgs {
    /// The transport address of the server these settings name.
    pub open spec fn server(self) -> ClientAddress {
        ClientAddress {
            addr: match self.server_ip {
                IpAddress::V4(ip) => SocketAddress::V4 { ip, port: self.server_port },
                IpAddress::V6(ip) => SocketAddress::V6 { ip, port: self.server_port },
            },
        }
    }

    /// The transport address of the server these settings name.
    pub fn server_address(&self) -> (address: ClientAddress)
        ensures
            address == self.server(),
    {
        ClientAddress {
            addr: match self.server_ip {
                IpAddress::V4(ip) => SocketAddress::V4 { ip, port: self.server_port },
                IpAddress::V6(ip) => SocketAddress::V6 { ip, port: self.server_port },
            },
        }
    }
}

} // verus!
