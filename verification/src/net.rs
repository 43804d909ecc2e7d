//! Socket addresses as plain values.

use vstd::prelude::*;

use crate::table::TableKey;

verus! {

/// An IP address; the number is the address in network byte order.
#[derive(Debug, Clone, Copy, PartialEq, Eq, Structural, Hash)]
pub enum IpAddr {
    V4(u32),
    V6(u128),
}

/// An IP address and a port.
#[derive(Debug, Clone, Copy, PartialEq, Eq, Structural, Hash)]
pub struct SocketAddr {
    pub ip: IpAddr,
    pub port: u16,
}

impl TableKey for IpAddr {
    type Id = IpAddr;

    open spec fn id(&self) -> IpAddr {
        *self
    }

    fn same(&self, other: &Self) -> (r: bool) {
        *self == *other
    }
}

/// An address of the machine itself: 127.0.0.0/8 or ::1.
pub open spec fn loopback(ip: IpAddr) -> bool {
    match ip {
        IpAddr::V4(a) => a / 0x100_0000 == 127,
        IpAddr::V6(a) => a == 1,
    }
}

/// Whether an address is one of the machine itself.
pub fn is_loopback(ip: &IpAddr) -> (r: bool)
    ensures
        r == loopback(*ip),
{
    match ip {
        IpAddr::V4(a) => *a / 0x100_0000 == 127,
        IpAddr::V6(a) => *a == 1,
    }
}

impl TableKey for SocketAddr {
    type Id = SocketAddr;

    open spec fn id(&self) -> SocketAddr {
        *self
    }

    fn same(&self, other: &Self) -> (r: bool) {
        *self == *other
    }
}

} // verus!
