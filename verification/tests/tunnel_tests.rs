use negy::errors::Error;
use negy::gateway::{Gateway, NodeUnselected};
use negy::node::{check_upstream_reply, context_decode, reply_is_ok, split_handshake, Node};
use negy::protocol::Protocol;

fn keypair() -> (
    openssl::rsa::Rsa<openssl::pkey::Private>,
    openssl::rsa::Rsa<openssl::pkey::Public>,
) {
    let private = openssl::rsa::Rsa::generate(2048).unwrap();
    let pem = private.public_key_to_pem().unwrap();
    let public = openssl::rsa::Rsa::public_key_from_pem(&pem).unwrap();
    (private, public)
}

fn candidate(addr: &str, public: &openssl::rsa::Rsa<openssl::pkey::Public>) -> NodeUnselected {
    NodeUnselected {
        addr: addr.as_bytes().to_vec(),
        rsa: public.clone(),
        key_len: public.size() as usize,
    }
}

/// Pseudo-random but deterministic payload bytes.
fn pattern(len: usize) -> Vec<u8> {
    let mut v = Vec::with_capacity(len);
    let mut x: u32 = 0x1234_5678;
    for _ in 0..len {
        x = x.wrapping_mul(1664525).wrapping_add(1013904223);
        v.push((x >> 24) as u8);
    }
    v
}

#[test]
fn parse_connect_request_extracts_target() {
    let req = b"CONNECT 127.0.0.1:9001 HTTP/1.1\r\nHost: 127.0.0.1:9001\r\n\r\n";
    let target = negy::gateway::parse_connect_request(req).unwrap();
    assert_eq!(target, b"127.0.0.1:9001");
}

#[test]
fn parse_connect_request_rejects_other_methods() {
    assert!(matches!(
        negy::gateway::parse_connect_request(b"GET / HTTP/1.1\r\n\r\n"),
        Err(Error::Protocol)
    ));
    assert!(matches!(
        negy::gateway::parse_connect_request(b"CONNECTX host HTTP/1.1"),
        Err(Error::Protocol)
    ));
    assert!(matches!(
        negy::gateway::parse_connect_request(b"CONNECT"),
        Err(Error::Protocol)
    ));
    assert!(matches!(
        negy::gateway::parse_connect_request(b""),
        Err(Error::Protocol)
    ));
}

#[test]
fn http_200_response_is_exact() {
    assert_eq!(
        negy::gateway::http_200_response(),
        b"HTTP/1.1 200 OK\r\n\r\n"
    );
}

#[test]
fn upstream_reply_must_be_exactly_ok() {
    assert!(reply_is_ok(b"OK"));
    assert!(!reply_is_ok(b"OKX"));
    assert!(!reply_is_ok(b"O"));
    assert!(!reply_is_ok(b""));
    assert!(matches!(check_upstream_reply(b"OK"), Ok(())));
    assert!(matches!(check_upstream_reply(b"OKX"), Err(Error::Handshake)));
    assert!(matches!(check_upstream_reply(b"NO"), Err(Error::Handshake)));
}

#[test]
fn insufficient_hops_is_a_config_error() {
    let (_p1, pub1) = keypair();
    let (_p2, pub2) = keypair();
    let candidates = vec![
        candidate("10.0.0.1:3000", &pub1),
        candidate("10.0.0.2:3000", &pub2),
    ];
    let g = Gateway::new();
    assert!(matches!(
        g.fetch_nodes(&candidates, 3),
        Err(Error::Config)
    ));
}

#[test]
fn unknown_protocol_tag_closes_but_relay_keeps_accepting() {
    let (private, _) = keypair();
    let first = Node::new(private.clone()).accept(&[0xff, 1, 2, 3]);
    assert!(matches!(first, Err(Error::Protocol)));

    let again = Node::new(private).accept(&[0x02]).unwrap();
    assert!(matches!(again.protocol(), Protocol::NodeContext));
}

#[test]
fn context_probe_yields_valid_pem_and_version() {
    let (private, _) = keypair();
    let node = Node::new(private.clone()).accept(&[0x02]).unwrap();
    let reply = node.serve_context(b"0.1.0").unwrap();

    let (pem, version) = context_decode(&reply).unwrap();
    let parsed = openssl::rsa::Rsa::public_key_from_pem(&pem).unwrap();
    assert_eq!(parsed.size(), private.size());
    assert_eq!(version, b"0.1.0");
    assert!(!version.is_empty());
    assert!(version.iter().all(|b| b.is_ascii()));
}

#[test]
fn split_handshake_rejects_short_or_untagged_packets() {
    assert!(matches!(
        split_handshake(&vec![], 256),
        Err(Error::Protocol)
    ));
    assert!(matches!(
        split_handshake(&vec![0x02; 1000], 256),
        Err(Error::Protocol)
    ));
    assert!(matches!(
        split_handshake(&vec![0x01; 100], 256),
        Err(Error::Protocol)
    ));
    let mut packet = vec![0x01];
    packet.extend_from_slice(&[9u8; 3 * 16 + 5]);
    let (c1, c2, c3, succ) = split_handshake(&packet, 16).unwrap();
    assert_eq!(c1.len(), 16);
    assert_eq!(c2.len(), 16);
    assert_eq!(c3.len(), 16);
    assert_eq!(succ.len(), 5);
}

#[test]
fn single_hop_echo() {
    let (private, public) = keypair();
    let candidates = vec![candidate("127.0.0.1:9001", &public)];

    // gateway side: select the chain and build the handshake packet
    let g = Gateway::new().fetch_nodes(&candidates, 1).unwrap();
    let packet = g.handshake_packet(b"127.0.0.1:9001").unwrap();
    assert_eq!(packet.len(), 1 + 3 * 256);

    // relay side: accept, peel the layer
    let accepted = Node::new(private).accept(&packet).unwrap();
    assert!(matches!(accepted.protocol(), Protocol::Tunnel));
    let (mut relay, directive) = accepted.handshake().unwrap();
    assert_eq!(directive.dest, b"127.0.0.1:9001");
    assert!(directive.successor.is_empty());

    // client -> destination
    let mut gt = g.into_tunnel();
    let wire = gt.client_chunk(b"ping").unwrap();
    let outs = relay.downstream_chunk(&wire).unwrap();
    let reached: Vec<u8> = outs.concat();
    assert_eq!(reached, b"ping");

    // destination echoes -> client
    let back_wire = relay.upstream_chunk(&reached).unwrap();
    let back = gt.upstream_chunk(&back_wire).unwrap();
    assert_eq!(back, b"ping");
}

#[test]
fn three_hop_echo_with_large_payload() {
    let (priv1, pub1) = keypair();
    let (priv2, pub2) = keypair();
    let (priv3, pub3) = keypair();
    let mut privates = std::collections::BTreeMap::new();
    privates.insert(b"10.0.0.1:3000".to_vec(), priv1);
    privates.insert(b"10.0.0.2:3000".to_vec(), priv2);
    privates.insert(b"10.0.0.3:3000".to_vec(), priv3);
    let candidates = vec![
        candidate("10.0.0.1:3000", &pub1),
        candidate("10.0.0.2:3000", &pub2),
        candidate("10.0.0.3:3000", &pub3),
    ];

    let g = Gateway::new().fetch_nodes(&candidates, 3).unwrap();
    let chain_addrs: Vec<Vec<u8>> = g.state.nodes.iter().map(|h| h.dist.clone()).collect();
    let dest = b"127.0.0.1:9001".to_vec();
    let packet = g.handshake_packet(&dest).unwrap();
    assert_eq!(packet.len(), 3 * (1 + 3 * 256));

    // run the handshake through the three relays, in chain order
    let mut relays = Vec::new();
    let mut payload = packet;
    for (i, addr) in chain_addrs.iter().enumerate() {
        let private = privates.remove(addr).unwrap();
        let accepted = Node::new(private).accept(&payload).unwrap();
        let (relay, directive) = accepted.handshake().unwrap();
        if i + 1 < chain_addrs.len() {
            assert_eq!(directive.dest, chain_addrs[i + 1]);
            assert!(!directive.successor.is_empty());
        } else {
            assert_eq!(directive.dest, dest);
            assert!(directive.successor.is_empty());
        }
        payload = directive.successor;
        relays.push(relay);
    }

    // client -> destination: 100 KiB in 4 KiB chunks
    let mut gt = g.into_tunnel();
    let data = pattern(100 * 1024);
    let mut reached = Vec::new();
    for chunk in data.chunks(4096) {
        let mut wire = gt.client_chunk(chunk).unwrap();
        for relay in relays.iter_mut() {
            let outs = relay.downstream_chunk(&wire).unwrap();
            wire = outs.concat();
        }
        reached.extend_from_slice(&wire);
    }
    assert_eq!(reached, data);

    // destination echoes everything back, chunked differently
    let mut received = Vec::new();
    for chunk in reached.chunks(3000) {
        let mut wire = chunk.to_vec();
        for relay in relays.iter().rev() {
            wire = relay.upstream_chunk(&wire).unwrap();
        }
        received.extend_from_slice(&gt.upstream_chunk(&wire).unwrap());
    }
    assert_eq!(received, data);
}

#[test]
fn tunnel_survives_split_wire_chunks() {
    // the delimiter may straddle two reads between gateway and relay
    let (private, public) = keypair();
    let candidates = vec![candidate("127.0.0.1:9001", &public)];
    let g = Gateway::new().fetch_nodes(&candidates, 1).unwrap();
    let packet = g.handshake_packet(b"127.0.0.1:9001").unwrap();
    let (mut relay, _) = Node::new(private).accept(&packet).unwrap().handshake().unwrap();

    let mut gt = g.into_tunnel();
    let wire = gt.client_chunk(b"fragmented message").unwrap();
    let mut reached = Vec::new();
    for piece in wire.chunks(7) {
        for out in relay.downstream_chunk(piece).unwrap() {
            reached.extend_from_slice(&out);
        }
    }
    assert_eq!(reached, b"fragmented message");
}

#[test]
fn handshake_reader_starts_empty_and_buffers_partial_frames() {
    let (private, public) = keypair();
    let candidates = vec![candidate("127.0.0.1:9001", &public)];
    let g = Gateway::new().fetch_nodes(&candidates, 1).unwrap();
    let packet = g.handshake_packet(b"127.0.0.1:9001").unwrap();
    let (mut relay, _) = Node::new(private).accept(&packet).unwrap().handshake().unwrap();

    let mut gt = g.into_tunnel();
    let wire = gt.client_chunk(b"pending").unwrap();
    // feed all but the last byte: nothing complete yet
    let outs = relay.downstream_chunk(&wire[..wire.len() - 1]).unwrap();
    assert!(outs.is_empty());
    // the last byte completes the delimiter
    let outs = relay.downstream_chunk(&wire[wire.len() - 1..]).unwrap();
    assert_eq!(outs.concat(), b"pending");
}

#[test]
fn selection_is_without_replacement() {
    // with hops equal to the snapshot size, every relay must be chosen once
    let (_p1, pub1) = keypair();
    let (_p2, pub2) = keypair();
    let (_p3, pub3) = keypair();
    let candidates = vec![
        candidate("10.0.0.1:3000", &pub1),
        candidate("10.0.0.2:3000", &pub2),
        candidate("10.0.0.3:3000", &pub3),
    ];
    let g = Gateway::new().fetch_nodes(&candidates, 3).unwrap();
    let mut addrs: Vec<Vec<u8>> = g.state.nodes.iter().map(|h| h.dist.clone()).collect();
    addrs.sort();
    assert_eq!(
        addrs,
        vec![
            b"10.0.0.1:3000".to_vec(),
            b"10.0.0.2:3000".to_vec(),
            b"10.0.0.3:3000".to_vec(),
        ]
    );
}
