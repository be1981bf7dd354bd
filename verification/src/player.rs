use vstd::prelude::*;

verus! {

/// A client's last reported 2D position. Coordinates are unsigned
/// 16-bit values; a fresh session starts at the origin.
#[derive(Clone, Copy, PartialEq, Eq, Structural, Debug)]
pub struct Player {
    pub x: u16,
    pub y: u16,
}

/// A transport-level endpoint identity: the numeric value of the
/// client's IP address (IPv4 addresses mapped into the IPv6 space)
/// and its UDP port. It is the unique key correlating a connection,
/// its liveness and its position.
#[derive(Clone, Copy, PartialEq, Eq, Structural, Debug)]
pub struct ClientAddr {
    pub ip: u128,
    pub port: u16,
}

impl Player {
    /// The default position of a freshly connected session.
    pub open spec fn spec_origin() -> Player {
        Player { x: 0, y: 0 }
    }

    /// Returns the origin, the position every session starts from.
    pub fn origin() -> (p: Player)
        ensures
            p == Player::spec_origin(),
    {
        Player { x: 0, y: 0 }
    }
}

} // verus!
