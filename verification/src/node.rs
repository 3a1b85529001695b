use vstd::prelude::*;
use crate::aes::{aes_dec_of, aes_enc_of, Aes};
use crate::onion::{concat_decrypts, frames_fit};
use crate::errors::Error;
use crate::frame::{
    append_bytes, copy_range, copy_range_slice, first_delim_from, scan, EncryptedPayload,
    DELIMITER_LEN,
};
use crate::protocol::{Protocol, NODE_CONTEXT, TUNNEL};
use crate::rsa::{rsa_private_decrypt, rsa_public_key_to_pem, rsa_size_private};

verus! {

/// The two ASCII bytes `OK`: the reply a hop sends downstream once its
/// tunnel towards the destination stands.
pub fn ok_reply() -> (r: Vec<u8>)
    ensures
        r@ == seq![79u8, 75u8],
{
    let mut v: Vec<u8> = Vec::new();
    v.push(79);
    v.push(75);
    proof {
        assert(v@ =~= seq![79u8, 75u8]);
    }
    v
}

/// True exactly when `reply` is the two ASCII bytes `OK`. Anything else,
/// longer or shorter, fails the handshake.
pub fn reply_is_ok(reply: &[u8]) -> (r: bool)
    ensures
        r == (reply@.len() == 2 && reply@[0] == 79 && reply@[1] == 75),
{
    reply.len() == 2 && reply[0] == 79 && reply[1] == 75
}

/// Requires the upstream's handshake reply to be exactly the two bytes
/// `OK`; anything else fails with `Error::Handshake`.
pub fn check_upstream_reply(reply: &[u8]) -> (r: Result<(), Error>)
    ensures
        match r {
            Ok(()) => reply@.len() == 2 && reply@[0] == 79 && reply@[1] == 75,
            Err(e) => e == Error::Handshake && !(reply@.len() == 2 && reply@[0] == 79
                && reply@[1] == 75),
        },
{
    if reply_is_ok(reply) {
        Ok(())
    } else {
        Err(Error::Handshake)
    }
}

/// No byte of `s` is NUL.
pub open spec fn no_nul(s: Seq<u8>) -> bool {
    forall|i: int| 0 <= i < s.len() ==> s[i] != 0
}

/// The node-context reply: the PEM public key, one NUL byte, the version.
pub open spec fn spec_context_encode(pem: Seq<u8>, version: Seq<u8>) -> Seq<u8> {
    pem + seq![0u8] + version
}

/// Splits a context reply at its first NUL byte: the PEM key before it,
/// the version after it. Nothing to split without a NUL.
pub open spec fn spec_context_decode(reply: Seq<u8>) -> Option<(Seq<u8>, Seq<u8>)> {
    match first_delim_from(reply, seq![0u8], 0) {
        None => None,
        Some(i) => Some((reply.subrange(0, i), reply.subrange(i + 1, reply.len() as int))),
    }
}

pub fn context_encode(pem: &[u8], version: &[u8]) -> (r: Vec<u8>)
    ensures
        r@ == spec_context_encode(pem@, version@),
{
    let mut r: Vec<u8> = Vec::new();
    append_bytes(&mut r, pem);
    r.push(0);
    append_bytes(&mut r, version);
    proof {
        assert(r@ =~= pem@ + seq![0u8] + version@);
    }
    r
}

pub fn context_decode(reply: &[u8]) -> (r: Result<(Vec<u8>, Vec<u8>), Error>)
    ensures
        match r {
            Ok(p) => spec_context_decode(reply@) == Some((p.0@, p.1@)),
            Err(e) => e == Error::Protocol && spec_context_decode(reply@) is None,
        },
{
    let n = reply.len();
    let mut k: usize = 0;
    while k < n
        invariant
            n == reply@.len(),
            k <= n,
            forall|i: int| 0 <= i < k ==> reply@[i] != 0,
        decreases n - k,
    {
        if reply[k] == 0 {
            proof {
                crate::frame::lemma_first_byte_from(reply@, 0, 0, k as int);
            }
            let pem = copy_range_slice(reply, 0, k);
            let version = copy_range_slice(reply, k + 1, n);
            return Ok((pem, version));
        }
        k += 1;
    }
    proof {
        crate::frame::lemma_no_byte_from(reply@, 0, 0);
    }
    Err(Error::Protocol)
}

/// Law: decoding a context reply built from a NUL-free PEM key recovers
/// exactly the key and the version.
pub proof fn lemma_context_round_trip(pem: Seq<u8>, version: Seq<u8>)
    requires
        no_nul(pem),
    ensures
        spec_context_decode(spec_context_encode(pem, version)) == Some((pem, version)),
{
    let enc = spec_context_encode(pem, version);
    assert(enc[pem.len() as int] == 0);
    assert forall|i: int| 0 <= i < pem.len() implies enc[i] != 0 by {
        assert(enc[i] == pem[i]);
    }
    crate::frame::lemma_first_byte_from(enc, 0, 0, pem.len() as int);
    assert(enc.subrange(0, pem.len() as int) =~= pem);
    assert(enc.subrange((pem.len() + 1) as int, enc.len() as int) =~= version);
}

/// Splits a handshake packet of key size `k` into its three RSA blocks and
/// the successor payload:
/// tag(1) | RSA(delimiter)(k) | RSA(dest)(k) | RSA(key_iv)(k) | successor.
pub fn split_handshake(payload: &Vec<u8>, k: usize) -> (r: Result<
    (Vec<u8>, Vec<u8>, Vec<u8>, Vec<u8>),
    Error,
>)
    ensures
        match r {
            Ok(t) => payload@.len() >= 1 + 3 * (k as int) && payload@[0] == TUNNEL && t.0@
                == payload@.subrange(1, 1 + k as int) && t.1@ == payload@.subrange(
                1 + k as int,
                1 + 2 * (k as int),
            ) && t.2@ == payload@.subrange(1 + 2 * (k as int), 1 + 3 * (k as int)) && t.3@
                == payload@.subrange(1 + 3 * (k as int), payload@.len() as int),
            Err(e) => e == Error::Protocol && (payload@.len() < 1 + 3 * (k as int) || payload@.len()
                == 0 || payload@[0] != TUNNEL),
        },
{
    if payload.len() == 0 {
        return Err(Error::Protocol);
    }
    if payload[0] != TUNNEL {
        return Err(Error::Protocol);
    }
    if k > (payload.len() - 1) / 3 {
        proof {
            assert(3 * ((payload@.len() - 1) / 3) <= payload@.len() - 1) by (nonlinear_arith);
            assert(payload@.len() < 1 + 3 * (k as int));
        }
        return Err(Error::Protocol);
    }
    proof {
        assert(3 * (k as int) <= 3 * ((payload@.len() - 1) / 3)) by (nonlinear_arith)
            requires
                k as int <= (payload@.len() - 1) / 3,
        ;
        assert(3 * ((payload@.len() - 1) / 3) <= payload@.len() - 1) by (nonlinear_arith);
    }
    let c1 = copy_range(payload, 1, 1 + k);
    let c2 = copy_range(payload, 1 + k, 1 + 2 * k);
    let c3 = copy_range(payload, 1 + 2 * k, 1 + 3 * k);
    let succ = copy_range(payload, 1 + 3 * k, payload.len());
    Ok((c1, c2, c3, succ))
}

/// The destination carried in a decrypted handshake block: the bytes up to
/// the first NUL, or all of them when none occurs.
pub open spec fn spec_dest_of(plain: Seq<u8>) -> Seq<u8> {
    match first_delim_from(plain, seq![0u8], 0) {
        None => plain,
        Some(i) => plain.subrange(0, i),
    }
}

pub fn dest_of(plain: &Vec<u8>) -> (r: Vec<u8>)
    ensures
        r@ == spec_dest_of(plain@),
{
    let n = plain.len();
    let mut k: usize = 0;
    while k < n
        invariant
            n == plain@.len(),
            k <= n,
            forall|i: int| 0 <= i < k ==> plain@[i] != 0,
        decreases n - k,
    {
        if plain[k] == 0 {
            proof {
                crate::frame::lemma_first_byte_from(plain@, 0, 0, k as int);
            }
            return copy_range(plain, 0, k);
        }
        k += 1;
    }
    proof {
        crate::frame::lemma_no_byte_from(plain@, 0, 0);
    }
    let r = copy_range(plain, 0, n);
    proof {
        assert(plain@.subrange(0, n as int) =~= plain@);
    }
    r
}

/// The first 16 bytes of a decrypted block, as a delimiter.
fn take_delimiter(v: &Vec<u8>) -> (r: [u8; DELIMITER_LEN])
    requires
        v@.len() >= DELIMITER_LEN,
    ensures
        r@ == v@.subrange(0, DELIMITER_LEN as int),
{
    let mut out = [0u8; DELIMITER_LEN];
    let mut k: usize = 0;
    while k < DELIMITER_LEN
        invariant
            k <= DELIMITER_LEN,
            v@.len() >= DELIMITER_LEN,
            out@.len() == DELIMITER_LEN,
            forall|t: int| 0 <= t < k ==> out@[t] == v@[t],
        decreases DELIMITER_LEN - k,
    {
        out[k] = v[k];
        k += 1;
    }
    proof {
        assert(out@ =~= v@.subrange(0, DELIMITER_LEN as int));
    }
    out
}

/// The first 48 bytes of a decrypted block, as a session key and IV.
fn take_key_iv(v: &Vec<u8>) -> (r: [u8; 48])
    requires
        v@.len() >= 48,
    ensures
        r@ == v@.subrange(0, 48),
{
    let mut out = [0u8; 48];
    let mut k: usize = 0;
    while k < 48
        invariant
            k <= 48,
            v@.len() >= 48,
            out@.len() == 48,
            forall|t: int| 0 <= t < k ==> out@[t] == v@[t],
        decreases 48 - k,
    {
        out[k] = v[k];
        k += 1;
    }
    proof {
        assert(out@ =~= v@.subrange(0, 48));
    }
    out
}

/// What the relay must do next after a successful handshake: open a TCP
/// connection to `dest` and, when `successor` is not empty, forward it
/// verbatim to that upstream and require the two-byte `OK` reply.
pub struct HandshakeDirective {
    pub dest: Vec<u8>,
    pub successor: Vec<u8>,
}

/// A relay connection before its first read.
pub struct StateInit {
    pub rsa: openssl::rsa::Rsa<openssl::pkey::Private>,
}

/// A relay connection whose first read has been parsed: the protocol tag
/// and the whole first-read buffer.
pub struct StateAccepted {
    pub rsa: openssl::rsa::Rsa<openssl::pkey::Private>,
    pub protocol: Protocol,
    pub payload_init: Vec<u8>,
}

/// A relay connection in steady state: one layer of session crypto and the
/// frame reader for the downstream direction.
pub struct StateTunnel {
    pub aes: Aes,
    pub delimiter: [u8; DELIMITER_LEN],
    pub reader: EncryptedPayload,
}

/// One relay-side connection, in the phase `State`. Only the type of the
/// current phase exposes the next transition, so no operation can be
/// invoked out of phase.
pub struct Node<State> {
    pub state: State,
}

impl Node<StateInit> {
    pub fn new(rsa: openssl::rsa::Rsa<openssl::pkey::Private>) -> (r: Node<StateInit>) {
        Node { state: StateInit { rsa } }
    }

    /// Parses the protocol tag off the first chunk read from the inbound
    /// connection and retains the whole chunk.
    pub fn accept(self, first_read: &[u8]) -> (r: Result<Node<StateAccepted>, Error>)
        ensures
            match r {
                Ok(n) => n.state.rsa == self.state.rsa && first_read@.len() > 0
                    && n.state.payload_init@ == first_read@ && ((first_read@[0] == TUNNEL
                    && n.state.protocol == Protocol::Tunnel) || (first_read@[0] == NODE_CONTEXT
                    && n.state.protocol == Protocol::NodeContext)),
                Err(e) => e == Error::Protocol && (first_read@.len() == 0 || (first_read@[0]
                    != TUNNEL && first_read@[0] != NODE_CONTEXT)),
            },
    {
        match Protocol::parse(first_read) {
            Ok(protocol) => Ok(
                Node {
                    state: StateAccepted {
                        rsa: self.state.rsa,
                        protocol,
                        payload_init: vstd::slice::slice_to_vec(first_read),
                    },
                },
            ),
            Err(e) => Err(e),
        }
    }
}

impl Node<StateAccepted> {
    pub fn protocol(&self) -> (r: Protocol)
        ensures
            r == self.state.protocol,
    {
        self.state.protocol
    }

    /// The node-context reply: this relay's public key in PEM form, a NUL,
    /// and its version string.
    pub fn serve_context(&self, version: &[u8]) -> (r: Result<Vec<u8>, Error>)
        ensures
            match r {
                Ok(v) => exists|pem: Seq<u8>|
                    no_nul(pem) && v@ == spec_context_encode(pem, version@),
                Err(e) => e == Error::Crypto,
            },
    {
        let pem = match rsa_public_key_to_pem(&self.state.rsa) {
            Ok(p) => p,
            Err(_) => {
                return Err(Error::Crypto);
            },
        };
        let reply = context_encode(pem.as_slice(), version);
        proof {
            assert(no_nul(pem@));
        }
        Ok(reply)
    }

    /// Peels this relay's layer of the handshake packet: recovers the
    /// delimiter, the destination and the session key from the three RSA
    /// blocks, and hands back the successor payload verbatim.
    pub fn handshake(self) -> (r: Result<(Node<StateTunnel>, HandshakeDirective), Error>)
        requires
            self.state.protocol == Protocol::Tunnel,
        ensures
            match r {
                Ok(t) => t.0.state.aes.wf() && t.0.state.reader.buffered() == Seq::<u8>::empty()
                    && exists|k: int|
                    #![trigger self.state.payload_init@.subrange(1 + 3 * k, self.state.payload_init@.len() as int)]
                    1 <= k && self.state.payload_init@.len() >= 1 + 3 * k
                        && self.state.payload_init@[0] == TUNNEL && t.1.successor@
                        == self.state.payload_init@.subrange(
                        1 + 3 * k,
                        self.state.payload_init@.len() as int,
                    ),
                Err(e) => e == Error::Protocol || e == Error::Crypto,
            },
    {
        let k = rsa_size_private(&self.state.rsa) as usize;
        if k == 0 || k >= 0x8000_0000 {
            return Err(Error::Protocol);
        }
        let (c1, c2, c3, successor) = match split_handshake(&self.state.payload_init, k) {
            Ok(t) => t,
            Err(e) => {
                return Err(e);
            },
        };

        let d1 = match rsa_private_decrypt(&self.state.rsa, c1.as_slice()) {
            Ok(p) => p,
            Err(_) => {
                return Err(Error::Crypto);
            },
        };
        if d1.len() < DELIMITER_LEN {
            return Err(Error::Crypto);
        }
        let delimiter = take_delimiter(&d1);

        let d2 = match rsa_private_decrypt(&self.state.rsa, c2.as_slice()) {
            Ok(p) => p,
            Err(_) => {
                return Err(Error::Crypto);
            },
        };
        let dest = dest_of(&d2);

        let d3 = match rsa_private_decrypt(&self.state.rsa, c3.as_slice()) {
            Ok(p) => p,
            Err(_) => {
                return Err(Error::Crypto);
            },
        };
        if d3.len() < 48 {
            return Err(Error::Crypto);
        }
        let key_iv = take_key_iv(&d3);
        let aes = Aes::import(&key_iv);

        Ok(
            (
                Node {
                    state: StateTunnel { aes, delimiter, reader: EncryptedPayload::new() },
                },
                HandshakeDirective { dest, successor },
            ),
        )
    }
}

impl Node<StateTunnel> {
    /// Downstream to upstream: the arriving ciphertext chunk joins the
    /// frame reader; every frame now complete is decrypted, in order. The
    /// caller writes the returned plaintexts to the upstream connection.
    pub fn downstream_chunk(&mut self, chunk: &[u8]) -> (r: Result<Vec<Vec<u8>>, Error>)
        requires
            old(self).state.aes.wf(),
        ensures
            final(self).state.aes == old(self).state.aes,
            final(self).state.delimiter == old(self).state.delimiter,
            ({
                let sc = scan(
                    old(self).state.reader.buffered() + chunk@,
                    old(self).state.delimiter@,
                );
                match r {
                    Ok(outs) => final(self).state.reader.buffered() == sc.1 && outs.deep_view().len()
                        == sc.0.len() && forall|i: int|
                        0 <= i < sc.0.len() ==> aes_dec_of(
                            old(self).state.aes.key_spec(),
                            old(self).state.aes.iv_spec(),
                            sc.0[i],
                        ) == Some(#[trigger] outs.deep_view()[i]),
                    Err(e) => e == Error::Crypto && (frames_fit(sc.0) ==> concat_decrypts(
                        old(self).state.aes.key_spec(),
                        old(self).state.aes.iv_spec(),
                        sc.0,
                    ) is None),
                }
            }),
    {
        let ghost sc = scan(self.state.reader.buffered() + chunk@, self.state.delimiter@);
        let frames = match self.state.reader.read(chunk, &self.state.delimiter) {
            Ok(f) => f,
            Err(e) => {
                return Err(e);
            },
        };
        let mut outs: Vec<Vec<u8>> = Vec::new();
        let mut j: usize = 0;
        proof {
            assert(frames.deep_view().take(0) =~= Seq::<Seq<u8>>::empty());
        }
        while j < frames.len()
            invariant
                self.state.aes == old(self).state.aes,
                self.state.aes.wf(),
                self.state.delimiter == old(self).state.delimiter,
                self.state.reader.buffered() == scan(
                    old(self).state.reader.buffered() + chunk@,
                    old(self).state.delimiter@,
                ).1,
                frames.deep_view() == scan(
                    old(self).state.reader.buffered() + chunk@,
                    old(self).state.delimiter@,
                ).0,
                j <= frames@.len(),
                outs.deep_view().len() == j,
                forall|i: int|
                    0 <= i < j ==> aes_dec_of(
                        old(self).state.aes.key_spec(),
                        old(self).state.aes.iv_spec(),
                        frames.deep_view()[i],
                    ) == Some(#[trigger] outs.deep_view()[i]),
                concat_decrypts(
                    old(self).state.aes.key_spec(),
                    old(self).state.aes.iv_spec(),
                    frames.deep_view().take(j as int),
                ) is Some,
            decreases frames@.len() - j,
        {
            let ghost pre = outs.deep_view();
            let ghost key = old(self).state.aes.key_spec();
            let ghost iv = old(self).state.aes.iv_spec();
            match self.state.aes.decrypt(frames[j].as_slice()) {
                Ok(p) => {
                    outs.push(p);
                    proof {
                        assert(outs.deep_view() =~~= pre.push(p@));
                        assert(frames.deep_view()[j as int] == frames@[j as int]@);
                        assert(frames.deep_view().take(j + 1) =~= frames.deep_view().take(
                            j as int,
                        ).push(frames.deep_view()[j as int]));
                        crate::onion::lemma_concat_decrypts_snoc(
                            key,
                            iv,
                            frames.deep_view().take(j as int),
                            frames.deep_view()[j as int],
                        );
                    }
                },
                Err(e) => {
                    proof {
                        if frames_fit(frames.deep_view()) {
                            assert(frames.deep_view()[j as int] == frames@[j as int]@);
                            assert(frames@[j as int]@.len() < 0x8000_0000);
                            assert(frames.deep_view().take(j + 1) =~= frames.deep_view().take(
                                j as int,
                            ).push(frames.deep_view()[j as int]));
                            crate::onion::lemma_concat_decrypts_snoc(
                                key,
                                iv,
                                frames.deep_view().take(j as int),
                                frames.deep_view()[j as int],
                            );
                            crate::onion::lemma_concat_decrypts_prefix_none(
                                key,
                                iv,
                                frames.deep_view(),
                                j + 1,
                            );
                        }
                    }
                    return Err(e);
                },
            }
            j += 1;
        }
        Ok(outs)
    }

    /// Upstream to downstream: one layer of encryption on the whole chunk,
    /// the relay's delimiter appended. The joint contract with the frame
    /// reader and `Aes::decrypt` gives the round trip back to `chunk`.
    pub fn upstream_chunk(&self, chunk: &[u8]) -> (r: Result<Vec<u8>, Error>)
        requires
            self.state.aes.wf(),
        ensures
            match r {
                Ok(v) => v@ == aes_enc_of(
                    self.state.aes.key_spec(),
                    self.state.aes.iv_spec(),
                    chunk@,
                ) + self.state.delimiter@ && aes_dec_of(
                    self.state.aes.key_spec(),
                    self.state.aes.iv_spec(),
                    aes_enc_of(self.state.aes.key_spec(), self.state.aes.iv_spec(), chunk@),
                ) == Some(chunk@),
                Err(e) => e == Error::Crypto,
            },
    {
        let mut ct = match self.state.aes.encrypt(chunk) {
            Ok(c) => c,
            Err(e) => {
                return Err(e);
            },
        };
        let delim = self.state.delimiter;
        append_bytes(&mut ct, delim.as_slice());
        Ok(ct)
    }
}

} // verus!
