use vstd::prelude::*;
use crate::aes::Aes;
use crate::b64::{b64_dec_of, b64_decode};
use crate::directory::ListedNode;
use crate::errors::Error;
use crate::frame::{
    append_bytes, copy_range_slice, first_delim_from, EncryptedPayload, DELIMITER_LEN,
};
use crate::onion::{
    aes_inverts, concat_decrypts, layer_plain, onion_encrypt, peel_chain, peel_one, HopSpec,
};
use crate::protocol::TUNNEL;
use crate::rsa::{rsa_clone, rsa_public_encrypt, rsa_public_key_from_pem};

verus! {

/// A relay as the directory lists it, ready for selection: its address
/// bytes, its RSA public key, and that key's modulus size in bytes.
pub struct NodeUnselected {
    pub addr: Vec<u8>,
    pub rsa: openssl::rsa::Rsa<openssl::pkey::Public>,
    pub key_len: usize,
}

/// One selected hop of a tunnel: its fresh session cipher, the relay's
/// public key and key size, the fresh frame delimiter, the relay's address,
/// and the inbound frame reader for this hop's layer.
pub struct Hop {
    pub aes: Aes,
    pub rsa: openssl::rsa::Rsa<openssl::pkey::Public>,
    pub key_len: usize,
    pub delimiter: [u8; DELIMITER_LEN],
    pub dist: Vec<u8>,
    pub encrypted_payload: EncryptedPayload,
}

impl Hop {
    /// The ghost image of this hop's session crypto.
    pub open spec fn crypto(&self) -> HopSpec {
        HopSpec { key: self.aes.key_spec(), iv: self.aes.iv_spec(), delim: self.delimiter@ }
    }

    pub open spec fn wf(&self) -> bool {
        self.aes.wf() && self.dist@.len() < 0x8000_0000
    }

    /// Identity apart from the frame reader's pending buffer.
    pub open spec fn same_identity(&self, other: &Hop) -> bool {
        self.crypto() == other.crypto() && self.dist@ == other.dist@ && self.key_len
            == other.key_len
    }
}

/// The session crypto of a whole chain, hop by hop.
pub open spec fn chain_crypto(hops: Seq<Hop>) -> Seq<HopSpec> {
    hops.map_values(|h: Hop| h.crypto())
}

/// The pending inbound buffers of a whole chain, hop by hop.
pub open spec fn chain_bufs(hops: Seq<Hop>) -> Seq<Seq<u8>> {
    hops.map_values(|h: Hop| h.encrypted_payload.buffered())
}

pub open spec fn chain_wf(hops: Seq<Hop>) -> bool {
    forall|i: int| 0 <= i < hops.len() ==> (#[trigger] hops[i]).wf()
}

/// The identifying pair of each candidate: its address and key size.
pub open spec fn cand_ids(cands: Seq<NodeUnselected>) -> Seq<(Seq<u8>, usize)> {
    cands.map_values(|c: NodeUnselected| (c.addr@, c.key_len))
}

/// The chain was drawn from the candidate list without replacement: some
/// sequence of pairwise-distinct candidate indices gives each hop its
/// entry's address and key size.
pub open spec fn selected_without_replacement(hops: Seq<Hop>, cands: Seq<NodeUnselected>) -> bool {
    exists|sel: Seq<int>|
        #![trigger sel.len()]
        sel.len() == hops.len() && (forall|x: int|
            0 <= x < sel.len() ==> 0 <= #[trigger] sel[x] < cands.len()) && (forall|x: int, y: int|
            0 <= x < y < sel.len() ==> sel[x] != sel[y]) && (forall|x: int|
            0 <= x < sel.len() ==> (#[trigger] hops[x]).dist@ == cands[sel[x]].addr@
                && hops[x].key_len == cands[sel[x]].key_len)
}

proof fn lemma_selected_without_replacement(
    hops: Seq<Hop>,
    cands: Seq<NodeUnselected>,
    sel: Seq<int>,
)
    requires
        sel.len() == hops.len(),
        forall|x: int| 0 <= x < sel.len() ==> 0 <= #[trigger] sel[x] < cands.len(),
        forall|x: int, y: int| 0 <= x < y < sel.len() ==> sel[x] != sel[y],
        forall|x: int|
            0 <= x < sel.len() ==> (#[trigger] hops[x]).dist@ == cands[sel[x]].addr@
                && hops[x].key_len == cands[sel[x]].key_len,
    ensures
        selected_without_replacement(hops, cands),
{
    assert(sel.len() == hops.len());
}

/// Every hop of the chain starts with an empty pending buffer.
pub open spec fn chain_fresh(hops: Seq<Hop>) -> bool {
    forall|i: int|
        0 <= i < hops.len() ==> (#[trigger] hops[i]).encrypted_payload.buffered()
            == Seq::<u8>::empty()
}

/// A gateway connection that has not selected its relays yet.
pub struct StateFetchNodes {}

/// A gateway connection with its chain selected, before the handshake.
pub struct StateHandshake {
    pub nodes: Vec<Hop>,
}

/// A gateway connection in steady state.
pub struct StateTunnel {
    pub nodes: Vec<Hop>,
}

/// One gateway-side connection, in the phase `State`. Only the type of the
/// current phase exposes the next transition, so no operation can be
/// invoked out of phase.
pub struct Gateway<State> {
    pub state: State,
}

impl Gateway<StateFetchNodes> {
    pub fn new() -> (r: Gateway<StateFetchNodes>) {
        Gateway { state: StateFetchNodes {} }
    }

    /// Selects `hops` relays uniformly at random without replacement from
    /// the directory snapshot, minting a fresh session key and delimiter
    /// for each. Fails with `Error::Config` exactly when the snapshot has
    /// fewer than `hops` relays; random or key failures are `Error::Crypto`.
    pub fn fetch_nodes(self, nodes: &Vec<NodeUnselected>, hops: usize) -> (r: Result<
        Gateway<StateHandshake>,
        Error,
    >)
        requires
            forall|i: int|
                0 <= i < nodes@.len() ==> (#[trigger] nodes@[i]).addr@.len() < 0x8000_0000,
        ensures
            nodes@.len() < hops ==> (r matches Err(e) && e == Error::Config),
            r == Err::<Gateway<StateHandshake>, Error>(Error::Config) ==> nodes@.len() < hops,
            match r {
                Ok(g) => g.state.nodes@.len() == hops && chain_wf(g.state.nodes@) && chain_fresh(
                    g.state.nodes@,
                ) && selected_without_replacement(g.state.nodes@, nodes@),
                Err(e) => e == Error::Config || e == Error::Crypto,
            },
    {
        if hops > nodes.len() {
            return Err(Error::Config);
        }
        let mut rng = new_thread_rng();
        let idxs = sample_indices(&mut rng, nodes.len(), hops);
        let mut selected: Vec<Hop> = Vec::new();
        let mut t: usize = 0;
        while t < idxs.len()
            invariant
                idxs@.len() == hops,
                hops <= nodes@.len(),
                forall|x: int| 0 <= x < idxs@.len() ==> (#[trigger] idxs@[x]) < nodes@.len(),
                forall|i: int|
                    0 <= i < nodes@.len() ==> (#[trigger] nodes@[i]).addr@.len() < 0x8000_0000,
                t <= hops,
                selected@.len() == t,
                forall|i: int|
                    0 <= i < t ==> (#[trigger] selected@[i]).wf()
                        && selected@[i].encrypted_payload.buffered() == Seq::<u8>::empty(),
                forall|i: int|
                    0 <= i < t ==> (#[trigger] selected@[i]).dist@ == nodes@[idxs@[i] as int].addr@
                        && selected@[i].key_len == nodes@[idxs@[i] as int].key_len,
            decreases idxs@.len() - t,
        {
            let j = idxs[t];
            let candidate = &nodes[j];
            let aes = match Aes::new() {
                Ok(a) => a,
                Err(e) => {
                    return Err(e);
                },
            };
            let delimiter = match EncryptedPayload::new_delimiter() {
                Ok(d) => d,
                Err(e) => {
                    return Err(e);
                },
            };
            let hop = Hop {
                aes,
                rsa: rsa_clone(&candidate.rsa),
                key_len: candidate.key_len,
                delimiter,
                dist: copy_range_slice(candidate.addr.as_slice(), 0, candidate.addr.len()),
                encrypted_payload: EncryptedPayload::new(),
            };
            proof {
                assert(hop.dist@ =~= nodes@[j as int].addr@);
            }
            selected.push(hop);
            t += 1;
        }
        proof {
            let sel = idxs@.map_values(|u: usize| u as int);
            assert(sel.len() == selected@.len());
            assert forall|x: int| 0 <= x < sel.len() implies 0 <= #[trigger] sel[x]
                < nodes@.len() by {
                assert(sel[x] == idxs@[x] as int);
            }
            assert forall|x: int, y: int| 0 <= x < y < sel.len() implies sel[x] != sel[y] by {
                assert(sel[x] == idxs@[x] as int);
                assert(sel[y] == idxs@[y] as int);
            }
            assert forall|x: int|
                0 <= x < sel.len() implies (#[trigger] selected@[x]).dist@ == nodes@[sel[x]].addr@
                    && selected@[x].key_len == nodes@[sel[x]].key_len by {
                assert(sel[x] == idxs@[x] as int);
            }
            lemma_selected_without_replacement(selected@, nodes@, sel);
            assert(chain_fresh(selected@));
        }
        Ok(Gateway { state: StateHandshake { nodes: selected } })
    }
}

/// Relies on rand::thread_rng: a handle to the thread-local generator.
#[verifier::external_body]
fn new_thread_rng() -> rand::rngs::ThreadRng {
    rand::thread_rng()
}

#[verifier::external_type_specification]
#[verifier::external_body]
pub struct ExThreadRng(rand::rngs::ThreadRng);

/// Relies on rand::seq::index::sample: exactly `amount` distinct indices
/// drawn uniformly from 0..length, in random order. It panics when
/// `amount > length`, so that case is excluded here.
#[verifier::external_body]
fn sample_indices(rng: &mut rand::rngs::ThreadRng, length: usize, amount: usize) -> (r: Vec<usize>)
    requires
        amount <= length,
    ensures
        r@.len() == amount,
        forall|x: int| 0 <= x < r@.len() ==> (#[trigger] r@[x]) < length,
        forall|x: int, y: int| 0 <= x < y < r@.len() ==> r@[x] != r@[y],
{
    rand::seq::index::sample(rng, length, amount).into_vec()
}

/// The request-target of an HTTP CONNECT request line: the bytes between
/// the first and the second space, provided the method before the first
/// space is exactly `CONNECT` and the target is not empty.
pub open spec fn spec_connect_target(s: Seq<u8>) -> Option<Seq<u8>> {
    match first_delim_from(s, seq![32u8], 0) {
        None => None,
        Some(i) => if s.subrange(0, i) == seq![67u8, 79u8, 78u8, 78u8, 69u8, 67u8, 84u8] {
            match first_delim_from(s, seq![32u8], i + 1) {
                None => None,
                Some(j) => if j > i + 1 {
                    Some(s.subrange(i + 1, j))
                } else {
                    None
                },
            }
        } else {
            None
        },
    }
}

/// Finds the first space in `req` at or after `from`.
fn find_space(req: &[u8], from: usize) -> (r: Option<usize>)
    requires
        from <= req@.len(),
    ensures
        match r {
            Some(i) => first_delim_from(req@, seq![32u8], from as int) == Some(i as int) && from
                <= i < req@.len(),
            None => first_delim_from(req@, seq![32u8], from as int) is None,
        },
{
    let n = req.len();
    let mut k: usize = from;
    while k < n
        invariant
            n == req@.len(),
            from <= k <= n,
            forall|i: int| from <= i < k ==> req@[i] != 32,
        decreases n - k,
    {
        if req[k] == 32 {
            proof {
                crate::frame::lemma_first_byte_from(req@, 32, from as int, k as int);
            }
            return Some(k);
        }
        k += 1;
    }
    proof {
        crate::frame::lemma_no_byte_from(req@, 32, from as int);
    }
    None
}

/// Parses the client's HTTP/1.x request: only the method CONNECT is
/// accepted, and its request-target is returned.
pub fn parse_connect_request(req: &[u8]) -> (r: Result<Vec<u8>, Error>)
    ensures
        match r {
            Ok(t) => spec_connect_target(req@) == Some(t@),
            Err(e) => e == Error::Protocol && spec_connect_target(req@) is None,
        },
{
    let i = match find_space(req, 0) {
        Some(i) => i,
        None => {
            return Err(Error::Protocol);
        },
    };
    let method_ok = i == 7 && req[0] == 67 && req[1] == 79 && req[2] == 78 && req[3] == 78
        && req[4] == 69 && req[5] == 67 && req[6] == 84;
    proof {
        if method_ok {
            assert(req@.subrange(0, i as int) =~= seq![67u8, 79u8, 78u8, 78u8, 69u8, 67u8, 84u8]);
        } else {
            assert(req@.subrange(0, i as int) != seq![67u8, 79u8, 78u8, 78u8, 69u8, 67u8, 84u8])
                by {
                let m = req@.subrange(0, i as int);
                let c = seq![67u8, 79u8, 78u8, 78u8, 69u8, 67u8, 84u8];
                if m == c {
                    assert(m.len() == 7);
                    assert(m[0] == req@[0] && m[1] == req@[1] && m[2] == req@[2] && m[3] == req@[3]
                        && m[4] == req@[4] && m[5] == req@[5] && m[6] == req@[6]);
                    assert(c[0] == 67 && c[1] == 79 && c[2] == 78 && c[3] == 78 && c[4] == 69
                        && c[5] == 67 && c[6] == 84);
                }
            }
        }
    }
    if !method_ok {
        return Err(Error::Protocol);
    }
    let j = match find_space(req, i + 1) {
        Some(j) => j,
        None => {
            return Err(Error::Protocol);
        },
    };
    if j == i + 1 {
        return Err(Error::Protocol);
    }
    Ok(copy_range_slice(req, i + 1, j))
}

/// The exact bytes of the success reply to the client:
/// `HTTP/1.1 200 OK` and the blank line.
pub fn http_200_response() -> (r: Vec<u8>)
    ensures
        r@ == seq![
            72u8, 84u8, 84u8, 80u8, 47u8, 49u8, 46u8, 49u8, 32u8, 50u8, 48u8, 48u8, 32u8, 79u8,
            75u8, 13u8, 10u8, 13u8, 10u8,
        ],
{
    let v: Vec<u8> = vec![72, 84, 84, 80, 47, 49, 46, 49, 32, 50, 48, 48, 32, 79, 75, 13, 10, 13, 10];
    proof {
        assert(v@ =~= seq![
            72u8, 84u8, 84u8, 80u8, 47u8, 49u8, 46u8, 49u8, 32u8, 50u8, 48u8, 48u8, 32u8, 79u8,
            75u8, 13u8, 10u8, 13u8, 10u8,
        ]);
    }
    v
}

/// The shape of a nested handshake packet for key sizes `lens`: for each
/// hop, one tunnel tag byte and three RSA blocks of that hop's key size,
/// then the next hop's layer; nothing after the innermost layer.
pub open spec fn handshake_packet_shape(p: Seq<u8>, lens: Seq<int>) -> bool
    decreases lens.len(),
{
    if lens.len() == 0 {
        p == Seq::<u8>::empty()
    } else {
        &&& lens[0] >= 0
        &&& p.len() >= 1 + 3 * lens[0]
        &&& p[0] == TUNNEL
        &&& handshake_packet_shape(p.skip(1 + 3 * lens[0]), lens.skip(1))
    }
}

/// The key sizes of a chain, hop by hop.
pub open spec fn chain_key_lens(hops: Seq<Hop>) -> Seq<int> {
    hops.map_values(|h: Hop| h.key_len as int)
}

impl Gateway<StateHandshake> {
    /// Builds the nested handshake packet, innermost hop first: for each
    /// relay, the tunnel tag and the RSA encryptions of its delimiter, of
    /// the next hop's address and of its 48-byte session key and IV, with
    /// everything built so far nested inside.
    pub fn handshake_packet(&self, final_dest: &[u8]) -> (r: Result<Vec<u8>, Error>)
        requires
            chain_wf(self.state.nodes@),
            final_dest@.len() < 0x8000_0000,
        ensures
            match r {
                Ok(p) => handshake_packet_shape(p@, chain_key_lens(self.state.nodes@)),
                Err(e) => e == Error::Crypto,
            },
    {
        let mut packet: Vec<u8> = Vec::new();
        let mut j: usize = self.state.nodes.len();
        proof {
            assert(chain_key_lens(self.state.nodes@).skip(j as int) =~= Seq::<int>::empty());
            assert(packet@ =~= Seq::<u8>::empty());
        }
        while j > 0
            invariant
                chain_wf(self.state.nodes@),
                final_dest@.len() < 0x8000_0000,
                j <= self.state.nodes@.len(),
                handshake_packet_shape(packet@, chain_key_lens(self.state.nodes@).skip(j as int)),
            decreases j,
        {
            j -= 1;
            let hop = &self.state.nodes[j];
            let dist: &[u8] = if j + 1 == self.state.nodes.len() {
                final_dest
            } else {
                self.state.nodes[j + 1].dist.as_slice()
            };

            let e1 = match rsa_public_encrypt(&hop.rsa, hop.delimiter.as_slice()) {
                Ok(c) => c,
                Err(_) => {
                    return Err(Error::Crypto);
                },
            };
            if e1.len() != hop.key_len {
                return Err(Error::Crypto);
            }
            let e2 = match rsa_public_encrypt(&hop.rsa, dist) {
                Ok(c) => c,
                Err(_) => {
                    return Err(Error::Crypto);
                },
            };
            if e2.len() != hop.key_len {
                return Err(Error::Crypto);
            }
            let key_iv = hop.aes.get_key_iv();
            let e3 = match rsa_public_encrypt(&hop.rsa, key_iv.as_slice()) {
                Ok(c) => c,
                Err(_) => {
                    return Err(Error::Crypto);
                },
            };
            if e3.len() != hop.key_len {
                return Err(Error::Crypto);
            }

            let mut layer: Vec<u8> = Vec::new();
            layer.push(TUNNEL);
            append_bytes(&mut layer, e1.as_slice());
            append_bytes(&mut layer, e2.as_slice());
            append_bytes(&mut layer, e3.as_slice());
            let ghost header = layer@;
            let mut next = layer;
            append_bytes(&mut next, packet.as_slice());
            proof {
                let lens = chain_key_lens(self.state.nodes@);
                assert(header.len() == 1 + 3 * (self.state.nodes@[j as int].key_len as int));
                assert(header[0] == TUNNEL);
                assert(next@ == header + packet@);
                assert(next@.skip(1 + 3 * lens[j as int]) =~= packet@);
                assert(lens.skip(j as int)[0] == lens[j as int]);
                assert(lens.skip(j as int).skip(1) =~= lens.skip(j as int + 1));
            }
            packet = next;
        }
        proof {
            assert(chain_key_lens(self.state.nodes@).skip(0) =~= chain_key_lens(
                self.state.nodes@,
            ));
        }
        Ok(packet)
    }

    /// Enters the tunnel phase once the upstream replied `OK` and the
    /// client got the 200 response; the chain carries over unchanged.
    pub fn into_tunnel(self) -> (r: Gateway<StateTunnel>)
        ensures
            r.state.nodes == self.state.nodes,
    {
        Gateway { state: StateTunnel { nodes: self.state.nodes } }
    }
}

impl Gateway<StateTunnel> {
    /// Client to first relay: each relay's session encryption is applied
    /// innermost hop first, that relay's delimiter appended after its
    /// layer's ciphertext. The returned `aes_inverts` facts feed the onion
    /// round-trip law.
    pub fn client_chunk(&self, data: &[u8]) -> (r: Result<Vec<u8>, Error>)
        requires
            chain_wf(self.state.nodes@),
        ensures
            match r {
                Ok(v) => v@ == onion_encrypt(chain_crypto(self.state.nodes@), data@) && (forall|
                    t: int,
                |
                    0 <= t < self.state.nodes@.len() ==> aes_inverts(
                        #[trigger] chain_crypto(self.state.nodes@)[t],
                        layer_plain(chain_crypto(self.state.nodes@), data@, t),
                    )),
                Err(e) => e == Error::Crypto,
            },
    {
        let ghost hs = chain_crypto(self.state.nodes@);
        let mut cur = vstd::slice::slice_to_vec(data);
        let mut j: usize = self.state.nodes.len();
        proof {
            assert(hs.skip(j as int) =~= Seq::<HopSpec>::empty());
        }
        while j > 0
            invariant
                chain_wf(self.state.nodes@),
                hs == chain_crypto(self.state.nodes@),
                j <= self.state.nodes@.len(),
                cur@ == onion_encrypt(hs.skip(j as int), data@),
                forall|t: int|
                    j <= t < self.state.nodes@.len() ==> aes_inverts(
                        #[trigger] hs[t],
                        layer_plain(hs, data@, t),
                    ),
            decreases j,
        {
            j -= 1;
            let hop = &self.state.nodes[j];
            let ct = match hop.aes.encrypt(cur.as_slice()) {
                Ok(c) => c,
                Err(e) => {
                    return Err(e);
                },
            };
            proof {
                assert(hs.skip(j as int)[0] == hs[j as int]);
                assert(hs.skip(j as int).skip(1) =~= hs.skip(j as int + 1));
                assert(layer_plain(hs, data@, j as int) == cur@);
            }
            let mut next = ct;
            append_bytes(&mut next, hop.delimiter.as_slice());
            cur = next;
        }
        proof {
            assert(hs.skip(0) =~= hs);
        }
        Ok(cur)
    }

    /// First relay to client: hop by hop in forward chain order, the
    /// arriving bytes join that hop's frame reader, every complete frame is
    /// decrypted with that hop's session key, and the concatenation feeds
    /// the next hop. Fails with `Error::Crypto` on any padding failure,
    /// which terminates the tunnel.
    pub fn upstream_chunk(&mut self, chunk: &[u8]) -> (r: Result<Vec<u8>, Error>)
        requires
            chain_wf(old(self).state.nodes@),
        ensures
            match r {
                Ok(v) => peel_chain(
                    chain_crypto(old(self).state.nodes@),
                    chain_bufs(old(self).state.nodes@),
                    chunk@,
                ) == Some((v@, chain_bufs(final(self).state.nodes@)))
                    && final(self).state.nodes@.len() == old(self).state.nodes@.len() && chain_wf(
                    final(self).state.nodes@,
                ) && (forall|i: int|
                    0 <= i < old(self).state.nodes@.len() ==> (
                    #[trigger] final(self).state.nodes@[i]).same_identity(
                        &old(self).state.nodes@[i],
                    )),
                Err(e) => e == Error::Crypto && (crate::onion::peel_fits(
                    chain_crypto(old(self).state.nodes@),
                    chain_bufs(old(self).state.nodes@),
                    chunk@,
                ) ==> peel_chain(
                    chain_crypto(old(self).state.nodes@),
                    chain_bufs(old(self).state.nodes@),
                    chunk@,
                ) is None),
            },
    {
        let mut done: Vec<Hop> = Vec::new();
        let mut cur = vstd::slice::slice_to_vec(chunk);
        proof {
            assert(chain_bufs(done@) =~= Seq::<Seq<u8>>::empty());
        }
        while self.state.nodes.len() > 0
            invariant
                chain_wf(old(self).state.nodes@),
                done@.len() + self.state.nodes@.len() == old(self).state.nodes@.len(),
                forall|i: int|
                    0 <= i < self.state.nodes@.len() ==> #[trigger] self.state.nodes@[i] == old(
                        self,
                    ).state.nodes@[done@.len() + i],
                forall|i: int|
                    0 <= i < done@.len() ==> (#[trigger] done@[i]).same_identity(
                        &old(self).state.nodes@[i],
                    ) && done@[i].wf(),
                peel_chain(
                    chain_crypto(old(self).state.nodes@),
                    chain_bufs(old(self).state.nodes@),
                    chunk@,
                ) == match peel_chain(
                    chain_crypto(self.state.nodes@),
                    chain_bufs(self.state.nodes@),
                    cur@,
                ) {
                    None => None::<(Seq<u8>, Seq<Seq<u8>>)>,
                    Some((fin, rs)) => Some((fin, chain_bufs(done@) + rs)),
                },
                crate::onion::peel_fits(
                    chain_crypto(old(self).state.nodes@),
                    chain_bufs(old(self).state.nodes@),
                    chunk@,
                ) ==> crate::onion::peel_fits(
                    chain_crypto(self.state.nodes@),
                    chain_bufs(self.state.nodes@),
                    cur@,
                ),
            decreases self.state.nodes@.len(),
        {
            let ghost pre_nodes = self.state.nodes@;
            let ghost cur0 = cur@;
            let mut hop = self.state.nodes.remove(0);
            let ghost buf0 = hop.encrypted_payload.buffered();
            let frames = match hop.encrypted_payload.read(cur.as_slice(), &hop.delimiter) {
                Ok(f) => f,
                Err(e) => {
                    return Err(e);
                },
            };
            let out = match decrypt_concat(&hop.aes, &frames) {
                Ok(o) => o,
                Err(e) => {
                    proof {
                        let ohs = chain_crypto(old(self).state.nodes@);
                        let obufs = chain_bufs(old(self).state.nodes@);
                        if crate::onion::peel_fits(ohs, obufs, chunk@) {
                            let hs = chain_crypto(pre_nodes);
                            let bufs = chain_bufs(pre_nodes);
                            let h = pre_nodes[0];
                            assert(hs[0] == h.crypto());
                            assert(bufs[0] == buf0);
                            assert(crate::onion::peel_fits(hs, bufs, cur0));
                            let sc = crate::frame::scan(buf0 + cur0, h.crypto().delim);
                            assert(sc.0 == frames.deep_view());
                            assert(crate::onion::frames_fit(frames.deep_view()));
                            assert(concat_decrypts(h.crypto().key, h.crypto().iv, sc.0) is None);
                            assert(peel_one(h.crypto(), buf0, cur0) is None);
                            assert(peel_chain(hs, bufs, cur0) is None);
                        }
                    }
                    return Err(e);
                },
            };
            proof {
                let h = pre_nodes[0];
                assert(peel_one(h.crypto(), buf0, cur@) == Some(
                    (out@, hop.encrypted_payload.buffered()),
                ));
                assert(chain_crypto(pre_nodes)[0] == h.crypto());
                assert(chain_bufs(pre_nodes)[0] == buf0);
                assert(chain_crypto(pre_nodes).skip(1) =~= chain_crypto(self.state.nodes@));
                assert(chain_bufs(pre_nodes).skip(1) =~= chain_bufs(self.state.nodes@));
            }
            let ghost done_pre = done@;
            done.push(hop);
            cur = out;
            proof {
                let nbuf = done@[done_pre.len() as int].encrypted_payload.buffered();
                assert(chain_bufs(done@) =~= chain_bufs(done_pre).push(nbuf));
                match peel_chain(
                    chain_crypto(self.state.nodes@),
                    chain_bufs(self.state.nodes@),
                    cur@,
                ) {
                    None => {},
                    Some((fin, rs)) => {
                        assert(chain_bufs(done_pre) + (seq![nbuf] + rs) =~= chain_bufs(done@) + rs);
                    },
                }
                let ohs = chain_crypto(old(self).state.nodes@);
                let obufs = chain_bufs(old(self).state.nodes@);
                if crate::onion::peel_fits(ohs, obufs, chunk@) {
                    let hs = chain_crypto(pre_nodes);
                    let bufs = chain_bufs(pre_nodes);
                    let h = pre_nodes[0];
                    assert(crate::onion::peel_fits(hs, bufs, cur0));
                    let sc = crate::frame::scan(buf0 + cur0, h.crypto().delim);
                    assert(sc.0 == frames.deep_view());
                    assert(concat_decrypts(h.crypto().key, h.crypto().iv, sc.0) == Some(cur@));
                    assert(crate::onion::peel_fits(hs.skip(1), bufs.skip(1), cur@));
                }
            }
        }
        proof {
            assert(chain_crypto(self.state.nodes@) =~= Seq::<HopSpec>::empty());
            assert(chain_bufs(self.state.nodes@) =~= Seq::<Seq<u8>>::empty());
            assert(chain_bufs(done@) + Seq::<Seq<u8>>::empty() =~= chain_bufs(done@));
        }
        self.state.nodes = done;
        Ok(cur)
    }
}

/// Decrypts every frame with one hop's session cipher and concatenates the
/// plaintexts, in order.
fn decrypt_concat(aes: &Aes, frames: &Vec<Vec<u8>>) -> (r: Result<Vec<u8>, Error>)
    requires
        aes.wf(),
    ensures
        match r {
            Ok(out) => concat_decrypts(aes.key_spec(), aes.iv_spec(), frames.deep_view()) == Some(
                out@,
            ),
            Err(e) => e == Error::Crypto && (crate::onion::frames_fit(frames.deep_view())
                ==> concat_decrypts(aes.key_spec(), aes.iv_spec(), frames.deep_view()) is None),
        },
{
    let mut out: Vec<u8> = Vec::new();
    let mut j: usize = 0;
    proof {
        assert(frames.deep_view().take(0) =~= Seq::<Seq<u8>>::empty());
    }
    while j < frames.len()
        invariant
            aes.wf(),
            j <= frames@.len(),
            frames.deep_view().len() == frames@.len(),
            concat_decrypts(aes.key_spec(), aes.iv_spec(), frames.deep_view().take(j as int))
                == Some(out@),
        decreases frames@.len() - j,
    {
        let ghost pre = out@;
        match aes.decrypt(frames[j].as_slice()) {
            Ok(p) => {
                proof {
                    assert(frames.deep_view()[j as int] == frames@[j as int]@);
                    assert(frames.deep_view().take(j + 1) =~= frames.deep_view().take(
                        j as int,
                    ).push(frames.deep_view()[j as int]));
                    crate::onion::lemma_concat_decrypts_snoc(
                        aes.key_spec(),
                        aes.iv_spec(),
                        frames.deep_view().take(j as int),
                        frames.deep_view()[j as int],
                    );
                }
                append_bytes(&mut out, p.as_slice());
            },
            Err(e) => {
                proof {
                    if crate::onion::frames_fit(frames.deep_view()) {
                        assert(frames.deep_view()[j as int] == frames@[j as int]@);
                        assert(frames@[j as int]@.len() < 0x8000_0000);
                        assert(frames.deep_view().take(j + 1) =~= frames.deep_view().take(
                            j as int,
                        ).push(frames.deep_view()[j as int]));
                        crate::onion::lemma_concat_decrypts_snoc(
                            aes.key_spec(),
                            aes.iv_spec(),
                            frames.deep_view().take(j as int),
                            frames.deep_view()[j as int],
                        );
                        crate::onion::lemma_concat_decrypts_prefix_none(
                            aes.key_spec(),
                            aes.iv_spec(),
                            frames.deep_view(),
                            j + 1,
                        );
                    }
                }
                return Err(e);
            },
        }
        j += 1;
    }
    proof {
        assert(frames.deep_view().take(frames@.len() as int) =~= frames.deep_view());
    }
    Ok(out)
}

/// Lexicographic byte order: true when `a` is at most `b`.
pub open spec fn lex_le(a: Seq<u8>, b: Seq<u8>) -> bool
    decreases a.len(),
{
    if a.len() == 0 {
        true
    } else if b.len() == 0 {
        false
    } else if a[0] < b[0] {
        true
    } else if a[0] > b[0] {
        false
    } else {
        lex_le(a.skip(1), b.skip(1))
    }
}

/// True when `version` is at or above `min` in lexicographic byte order:
/// the directory filter keeps exactly those relays.
pub fn version_at_least(version: &[u8], min: &[u8]) -> (r: bool)
    ensures
        r == lex_le(min@, version@),
{
    let mut k: usize = 0;
    proof {
        assert(min@.skip(0) =~= min@);
        assert(version@.skip(0) =~= version@);
    }
    while k < min.len() && k < version.len()
        invariant
            k <= min@.len(),
            k <= version@.len(),
            lex_le(min@, version@) == lex_le(min@.skip(k as int), version@.skip(k as int)),
        decreases min@.len() - k,
    {
        if min[k] < version[k] {
            proof {
                assert(min@.skip(k as int)[0] == min@[k as int]);
                assert(version@.skip(k as int)[0] == version@[k as int]);
            }
            return true;
        }
        if min[k] > version[k] {
            proof {
                assert(min@.skip(k as int)[0] == min@[k as int]);
                assert(version@.skip(k as int)[0] == version@[k as int]);
            }
            return false;
        }
        proof {
            assert(min@.skip(k as int)[0] == min@[k as int]);
            assert(version@.skip(k as int)[0] == version@[k as int]);
            assert(min@.skip(k as int).skip(1) =~= min@.skip(k as int + 1));
            assert(version@.skip(k as int).skip(1) =~= version@.skip(k as int + 1));
        }
        k += 1;
    }
    if k >= min.len() {
        proof {
            assert(min@.skip(k as int).len() == 0);
        }
        true
    } else {
        proof {
            assert(version@.skip(k as int).len() == 0);
            assert(min@.skip(k as int).len() > 0);
        }
        false
    }
}

/// The address bytes of a directory entry, as UTF-8.
pub open spec fn entry_addr(e: ListedNode) -> Seq<u8> {
    vstd::utf8::encode_utf8(e.addr@)
}

/// The base64 public-key bytes of a directory entry, as UTF-8.
pub open spec fn entry_pk(e: ListedNode) -> Seq<u8> {
    vstd::utf8::encode_utf8(e.public_key@)
}

/// The version bytes of a directory entry, as UTF-8.
pub open spec fn entry_version(e: ListedNode) -> Seq<u8> {
    vstd::utf8::encode_utf8(e.version@)
}

/// A directory entry decodes: its base64 key decodes to PEM bytes that
/// openssl parses, and its address and PEM bytes fit a C int.
pub open spec fn entry_decodes(e: ListedNode) -> bool {
    &&& match b64_dec_of(entry_pk(e)) {
        Some(pem) => pem.len() < 0x8000_0000 && crate::rsa::pem_parses(pem),
        None => false,
    }
    &&& entry_addr(e).len() < 0x8000_0000
}

/// The PEM bytes of a decoding entry.
pub open spec fn entry_pem(e: ListedNode) -> Seq<u8> {
    match b64_dec_of(entry_pk(e)) {
        Some(p) => p,
        None => Seq::empty(),
    }
}

/// Whether the version filter keeps an entry: at or above the minimum, or
/// no minimum given.
pub open spec fn entry_kept(e: ListedNode, min: Option<Seq<u8>>) -> bool {
    match min {
        Some(m) => lex_le(m, entry_version(e)),
        None => true,
    }
}

/// The address and RSA key size of every kept entry, in order.
pub open spec fn kept_candidates(entries: Seq<ListedNode>, min: Option<Seq<u8>>) -> Seq<
    (Seq<u8>, usize),
>
    decreases entries.len(),
{
    if entries.len() == 0 {
        Seq::empty()
    } else {
        let rest = kept_candidates(entries.skip(1), min);
        if entry_kept(entries[0], min) {
            seq![
                (entry_addr(entries[0]), crate::rsa::pem_key_len(entry_pem(entries[0])) as usize),
            ] + rest
        } else {
            rest
        }
    }
}

/// Decodes the directory's list reply into selectable relays: each entry's
/// base64 public key is decoded and parsed as a PEM RSA key, and exactly
/// the entries at or above the minimum version are kept, in order, each
/// under its own address and key size. Any malformed entry fails the whole
/// fetch with `Error::Directory`, leaving the previous snapshot in place.
pub fn decode_listed_nodes(nodes: &Vec<ListedNode>, min_version: Option<&Vec<u8>>) -> (r: Result<
    Vec<NodeUnselected>,
    Error,
>)
    ensures
        ({
            let minv = match min_version {
                Some(m) => Some(m@),
                None => None::<Seq<u8>>,
            };
            match r {
                Ok(v) => (forall|i: int|
                    0 <= i < nodes@.len() ==> entry_decodes(#[trigger] nodes@[i])) && cand_ids(v@)
                    == kept_candidates(nodes@, minv),
                Err(e) => e == Error::Directory && exists|i: int|
                    0 <= i < nodes@.len() && !entry_decodes(#[trigger] nodes@[i]),
            }
        }),
{
    let ghost minv = match min_version {
        Some(m) => Some(m@),
        None => None::<Seq<u8>>,
    };
    let mut out: Vec<NodeUnselected> = Vec::new();
    let mut k: usize = 0;
    proof {
        assert(nodes@.skip(0) =~= nodes@);
        assert(cand_ids(out@) =~= Seq::<(Seq<u8>, usize)>::empty());
        assert(cand_ids(out@) + kept_candidates(nodes@, minv) =~= kept_candidates(nodes@, minv));
    }
    while k < nodes.len()
        invariant
            minv == match min_version {
                Some(m) => Some(m@),
                None => None::<Seq<u8>>,
            },
            k <= nodes@.len(),
            forall|i: int| 0 <= i < k ==> entry_decodes(#[trigger] nodes@[i]),
            cand_ids(out@) + kept_candidates(nodes@.skip(k as int), minv) == kept_candidates(
                nodes@,
                minv,
            ),
        decreases nodes@.len() - k,
    {
        let ghost e = nodes@[k as int];
        let entry = &nodes[k];
        let pk_b64 = entry.public_key.as_str().as_bytes();
        proof {
            assert(pk_b64@ == entry_pk(e));
        }
        let pem = match b64_decode(pk_b64) {
            Ok(p) => p,
            Err(_) => {
                proof {
                    assert(!entry_decodes(nodes@[k as int]));
                }
                return Err(Error::Directory);
            },
        };
        if pem.len() >= 0x8000_0000 {
            proof {
                assert(!entry_decodes(nodes@[k as int]));
            }
            return Err(Error::Directory);
        }
        let (rsa, key_size) = match rsa_public_key_from_pem(pem.as_slice()) {
            Ok(p) => p,
            Err(_) => {
                proof {
                    assert(!entry_decodes(nodes@[k as int]));
                }
                return Err(Error::Directory);
            },
        };
        let key_len = key_size as usize;
        let addr_bytes = entry.addr.as_str().as_bytes();
        if addr_bytes.len() >= 0x8000_0000 {
            proof {
                assert(!entry_decodes(nodes@[k as int]));
            }
            return Err(Error::Directory);
        }
        let keep = match min_version {
            Some(m) => version_at_least(entry.version.as_str().as_bytes(), m.as_slice()),
            None => true,
        };
        proof {
            assert(entry_pem(e) == pem@);
            assert(entry_decodes(nodes@[k as int]));
            assert(keep == entry_kept(e, minv));
            assert(nodes@.skip(k as int)[0] == e);
            assert(nodes@.skip(k as int).skip(1) =~= nodes@.skip(k + 1));
        }
        if keep {
            let ghost pre = out@;
            out.push(
                NodeUnselected {
                    addr: copy_range_slice(addr_bytes, 0, addr_bytes.len()),
                    rsa,
                    key_len,
                },
            );
            proof {
                let pair = (entry_addr(e), crate::rsa::pem_key_len(entry_pem(e)) as usize);
                assert(out@[pre.len() as int].addr@ =~= entry_addr(e));
                assert(cand_ids(out@) =~= cand_ids(pre).push(pair));
                assert(cand_ids(pre).push(pair) + kept_candidates(nodes@.skip(k + 1), minv)
                    =~= cand_ids(pre) + (seq![pair] + kept_candidates(nodes@.skip(k + 1), minv)));
            }
        }
        k += 1;
    }
    proof {
        assert(nodes@.skip(nodes@.len() as int) =~= Seq::<ListedNode>::empty());
        assert(cand_ids(out@) + Seq::<(Seq<u8>, usize)>::empty() =~= cand_ids(out@));
    }
    Ok(out)
}

} // verus!
