use negy::errors::Error;
use negy::protocol::{Protocol, NODE_CONTEXT, TUNNEL};

#[test]
fn parse_accepts_the_two_known_tags() {
    assert!(matches!(Protocol::parse(&[0x01]), Ok(Protocol::Tunnel)));
    assert!(matches!(Protocol::parse(&[0x02]), Ok(Protocol::NodeContext)));
    assert!(matches!(
        Protocol::parse(&[0x01, 0xaa, 0xbb]),
        Ok(Protocol::Tunnel)
    ));
}

#[test]
fn parse_rejects_unknown_tags_and_empty_input() {
    assert!(matches!(Protocol::parse(&[0x00]), Err(Error::Protocol)));
    assert!(matches!(Protocol::parse(&[0xff]), Err(Error::Protocol)));
    assert!(matches!(Protocol::parse(&[]), Err(Error::Protocol)));
}

#[test]
fn symbol_bytes_match_the_wire_tags() {
    assert_eq!(Protocol::Tunnel.symbol_byte(), TUNNEL);
    assert_eq!(Protocol::NodeContext.symbol_byte(), NODE_CONTEXT);
    assert_eq!(TUNNEL, 1);
    assert_eq!(NODE_CONTEXT, 2);
}
