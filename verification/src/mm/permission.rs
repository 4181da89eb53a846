//! Access permissions of a mapped region.

use vstd::prelude::*;

verus! {

/// The permission bits of a region: user accessibility and the three kinds
/// of access.
#[derive(Clone, Copy, Debug, PartialEq, Eq, Structural)]
pub struct MapPermission {
    pub user: bool,
    pub read: bool,
    pub write: bool,
    pub execute: bool,
}

impl MapPermission {
    /// At least one of read, write and execute is granted.
    pub open spec fn has_access(self) -> bool {
        self.read || self.write || self.execute
    }

    /// A `port` argument is acceptable when it is not zero and has no bit
    /// set outside its three lowest.
    pub open spec fn port_valid(port: usize) -> bool {
        0 < port < 8
    }

    /// The user permission that a valid `port` stands for: bit 0 grants
    /// read, bit 1 write, bit 2 execute.
    pub open spec fn of_port(port: usize) -> MapPermission {
        MapPermission {
            user: true,
            read: port % 2 == 1,
            write: (port / 2) % 2 == 1,
            execute: (port / 4) % 2 == 1,
        }
    }

    /// The permission of heap pages: user code may read and write them.
    pub open spec fn heap() -> MapPermission {
        MapPermission { user: true, read: true, write: true, execute: false }
    }

    pub fn grants_access(&self) -> (r: bool)
        ensures
            r == self.has_access(),
    {
        self.read || self.write || self.execute
    }

    /// Decodes the `port` argument of a mapping request.
    pub fn from_port(port: usize) -> (r: Option<MapPermission>)
        ensures
            r == if Self::port_valid(port) {
                Some(Self::of_port(port))
            } else {
                None::<MapPermission>
            },
    {
        let read = port & 1 != 0;
        let write = port & 2 != 0;
        let execute = port & 4 != 0;
        proof {
            lemma_port_bits(port);
        }
        if port & !7usize != 0 || !(read || write || execute) {
            None
        } else {
            Some(MapPermission { user: true, read, write, execute })
        }
    }
}

/// The bitwise reading of a `port` agrees with the arithmetic one.
pub proof fn lemma_port_bits(port: usize)
    ensures
        (port & 1 != 0) == (port % 2 == 1),
        (port & 2 != 0) == ((port / 2) % 2 == 1),
        (port & 4 != 0) == ((port / 4) % 2 == 1),
        (port & !7usize == 0) == (port < 8),
        (port & 7 == 0 && port & !7usize == 0) == (port == 0),
{
    assert((port & 1 != 0) == (port % 2 == 1)) by (bit_vector);
    assert((port & 2 != 0) == ((port / 2) % 2 == 1)) by (bit_vector);
    assert((port & 4 != 0) == ((port / 4) % 2 == 1)) by (bit_vector);
    assert((port & !7usize == 0) == (port < 8)) by (bit_vector);
    assert((port & 7 == 0 && port & !7usize == 0) == (port == 0)) by (bit_vector);
}

/// A `port` is rejected exactly when it is zero or has a bit set outside
/// its three lowest.
pub proof fn lemma_port_rejected(port: usize)
    ensures
        !MapPermission::port_valid(port) <==> (port == 0 || port & !7usize != 0),
        MapPermission::port_valid(port) ==> MapPermission::of_port(port).has_access(),
        MapPermission::port_valid(port) ==> MapPermission::of_port(port).user,
{
    lemma_port_bits(port);
}

} // verus!
