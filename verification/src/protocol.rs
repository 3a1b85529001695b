use vstd::prelude::*;
use crate::errors::Error;

verus! {

/// Length of the protocol tag that leads the first packet of a connection.
pub const PROTOCOL_SYMBOL_LEN: usize = 1;

/// Tag byte of a tunnel handshake packet.
pub const TUNNEL: u8 = 1;

/// Tag byte of a directory healthcheck / node-context probe.
pub const NODE_CONTEXT: u8 = 2;

/// The protocol selected by the leading tag byte of a connection.
#[derive(Clone, Copy, Debug, PartialEq, Eq, Structural)]
pub enum Protocol {
    Tunnel,
    NodeContext,
}

impl Protocol {
    /// The tag byte that announces this protocol on the wire.
    pub open spec fn spec_symbol_byte(self) -> u8 {
        match self {
            Protocol::Tunnel => TUNNEL,
            Protocol::NodeContext => NODE_CONTEXT,
        }
    }

    pub fn symbol_byte(&self) -> (r: u8)
        ensures
            r == self.spec_symbol_byte(),
    {
        match self {
            Protocol::Tunnel => TUNNEL,
            Protocol::NodeContext => NODE_CONTEXT,
        }
    }

    /// Reads the protocol tag off the first byte of an incoming packet.
    /// Empty input and any byte other than the two known tags are rejected.
    pub fn parse(bytes: &[u8]) -> (r: Result<Protocol, Error>)
        ensures
            bytes@.len() == 0 ==> r === Err(Error::Protocol),
            bytes@.len() > 0 && bytes@[0] == TUNNEL ==> r === Ok(Protocol::Tunnel),
            bytes@.len() > 0 && bytes@[0] == NODE_CONTEXT ==> r === Ok(Protocol::NodeContext),
            bytes@.len() > 0 && bytes@[0] != TUNNEL && bytes@[0] != NODE_CONTEXT
                ==> r === Err(Error::Protocol),
    {
        if bytes.len() == 0 {
            return Err(Error::Protocol);
        }

        let symbol_byte = bytes[0];

        if symbol_byte == TUNNEL {
            Ok(Protocol::Tunnel)
        } else if symbol_byte == NODE_CONTEXT {
            Ok(Protocol::NodeContext)
        } else {
            Err(Error::Protocol)
        }
    }
}

} // verus!
