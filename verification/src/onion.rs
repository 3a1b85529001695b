use vstd::prelude::*;
use crate::aes::{aes_dec_of, aes_enc_of};
use crate::frame::{frame_clean, scan};

verus! {

/// The ghost image of one hop's session crypto: its AES key and IV and its
/// frame delimiter.
pub ghost struct HopSpec {
    pub key: Seq<u8>,
    pub iv: Seq<u8>,
    pub delim: Seq<u8>,
}

/// The bytes the gateway sends towards the first relay for the plaintext
/// `p`: the innermost (last) hop's encryption is applied first, and each
/// hop's delimiter follows that hop's ciphertext.
pub open spec fn onion_encrypt(hops: Seq<HopSpec>, p: Seq<u8>) -> Seq<u8>
    decreases hops.len(),
{
    if hops.len() == 0 {
        p
    } else {
        aes_enc_of(hops[0].key, hops[0].iv, onion_encrypt(hops.skip(1), p)) + hops[0].delim
    }
}

/// Decrypts a list of frames with one hop's session key and concatenates
/// the plaintexts; fails when any frame fails to decrypt.
pub open spec fn concat_decrypts(key: Seq<u8>, iv: Seq<u8>, frames: Seq<Seq<u8>>) -> Option<Seq<u8>>
    decreases frames.len(),
{
    if frames.len() == 0 {
        Some(Seq::empty())
    } else {
        match aes_dec_of(key, iv, frames[0]) {
            None => None,
            Some(p) => match concat_decrypts(key, iv, frames.skip(1)) {
                None => None,
                Some(rest) => Some(p + rest),
            },
        }
    }
}

/// One hop's inbound transformation: the arriving bytes join the hop's
/// pending buffer, every complete frame is decrypted, and the plaintexts
/// are concatenated. Yields the output bytes and the new pending buffer,
/// or nothing on a padding failure.
pub open spec fn peel_one(h: HopSpec, buf: Seq<u8>, input: Seq<u8>) -> Option<(Seq<u8>, Seq<u8>)> {
    let sc = scan(buf + input, h.delim);
    match concat_decrypts(h.key, h.iv, sc.0) {
        None => None,
        Some(out) => Some((out, sc.1)),
    }
}

/// The gateway's inbound transformation: hop after hop, in forward chain
/// order, peels one layer with `peel_one`. Yields the final plaintext and
/// each hop's new pending buffer.
pub open spec fn peel_chain(hops: Seq<HopSpec>, bufs: Seq<Seq<u8>>, input: Seq<u8>) -> Option<
    (Seq<u8>, Seq<Seq<u8>>),
>
    decreases hops.len(),
{
    if hops.len() == 0 {
        Some((input, Seq::empty()))
    } else {
        match peel_one(hops[0], bufs[0], input) {
            None => None,
            Some((out, residue)) => match peel_chain(hops.skip(1), bufs.skip(1), out) {
                None => None,
                Some((fin, residues)) => Some((fin, seq![residue] + residues)),
            },
        }
    }
}

/// `n` empty pending buffers: the state of a chain that has not received
/// anything yet.
pub open spec fn empty_bufs(n: nat) -> Seq<Seq<u8>> {
    Seq::new(n, |i: int| Seq::<u8>::empty())
}

/// Every frame is of a length the cipher accepts: openssl aborts on inputs
/// that do not fit a C int, so such frames are refused before the call.
pub open spec fn frames_fit(frames: Seq<Seq<u8>>) -> bool {
    forall|i: int| 0 <= i < frames.len() ==> (#[trigger] frames[i]).len() < 0x8000_0000
}

/// Along the whole peel of a chain, every complete frame that arises is of
/// a length the cipher accepts. Under this machine bound, a failed peel is
/// exactly a padding failure.
pub open spec fn peel_fits(hops: Seq<HopSpec>, bufs: Seq<Seq<u8>>, input: Seq<u8>) -> bool
    decreases hops.len(),
{
    if hops.len() == 0 {
        true
    } else {
        let sc = scan(bufs[0] + input, hops[0].delim);
        frames_fit(sc.0) && match concat_decrypts(hops[0].key, hops[0].iv, sc.0) {
            None => true,
            Some(out) => peel_fits(hops.skip(1), bufs.skip(1), out),
        }
    }
}

/// That AES decryption with a hop's session key inverts encryption on the
/// plaintext `p`. The trusted contract of `Aes::encrypt` supplies this for
/// every ciphertext it returns.
pub open spec fn aes_inverts(h: HopSpec, p: Seq<u8>) -> bool {
    aes_dec_of(h.key, h.iv, aes_enc_of(h.key, h.iv, p)) == Some(p)
}

/// The layer of plaintext that hop `k` of the chain encrypts: everything
/// the hops after it have wrapped already.
pub open spec fn layer_plain(hops: Seq<HopSpec>, p: Seq<u8>, k: int) -> Seq<u8> {
    onion_encrypt(hops.skip(k + 1), p)
}

/// Law: the layered onion round trip. For any chain of hops, peeling the
/// layers outermost to innermost, each hop starting from an empty pending
/// buffer, recovers exactly the plaintext that the nested encryption
/// wrapped, and every feed ends on a delimiter so every pending buffer is
/// empty again. This holds whenever each hop's cipher inverts on the layer
/// it encrypts and no layer's ciphertext happens to contain that hop's
/// delimiter (a 2^-128-per-window event for random delimiters).
pub proof fn lemma_onion_round_trip(hops: Seq<HopSpec>, p: Seq<u8>)
    requires
        forall|k: int| 0 <= k < hops.len() ==> (#[trigger] hops[k].delim).len() > 0,
        forall|k: int| 0 <= k < hops.len() ==> aes_inverts(#[trigger] hops[k], layer_plain(hops, p, k)),
        forall|k: int|
            0 <= k < hops.len() ==> frame_clean(
                aes_enc_of((#[trigger] hops[k]).key, hops[k].iv, layer_plain(hops, p, k)),
                hops[k].delim,
            ),
    ensures
        peel_chain(hops, empty_bufs(hops.len()), onion_encrypt(hops, p)) == Some(
            (p, empty_bufs(hops.len())),
        ),
    decreases hops.len(),
{
    if hops.len() == 0 {
        assert(empty_bufs(0) =~= Seq::<Seq<u8>>::empty());
    } else {
        let h0 = hops[0];
        let inner = onion_encrypt(hops.skip(1), p);
        let ct = aes_enc_of(h0.key, h0.iv, inner);
        let input = onion_encrypt(hops, p);
        assert(hops.skip((0 + 1) as int) == hops.skip(1));
        assert(input == ct + h0.delim);

        // the single frame `ct` comes out whole, with nothing pending
        crate::frame::lemma_scan_partial_tail(ct, h0.delim, Seq::<u8>::empty());
        assert(ct + h0.delim + Seq::<u8>::empty() =~= ct + h0.delim);
        assert(empty_bufs(hops.len())[0] + input =~= ct + h0.delim);
        let sc = scan(empty_bufs(hops.len())[0] + input, h0.delim);
        assert(sc.0 == seq![ct]);
        assert(sc.1 == Seq::<u8>::empty());

        // it decrypts back to the next layer
        assert(aes_inverts(h0, inner));
        assert(seq![ct].len() == 1 && seq![ct][0] == ct);
        assert(seq![ct].skip(1) =~= Seq::<Seq<u8>>::empty());
        assert(concat_decrypts(h0.key, h0.iv, Seq::<Seq<u8>>::empty()) == Some(
            Seq::<u8>::empty(),
        ));
        assert(aes_dec_of(h0.key, h0.iv, ct) == Some(inner));
        assert(concat_decrypts(h0.key, h0.iv, seq![ct]) == Some(inner + Seq::<u8>::empty()));
        assert(inner + Seq::<u8>::empty() =~= inner);
        assert(peel_one(h0, empty_bufs(hops.len())[0], input) == Some(
            (inner, Seq::<u8>::empty()),
        ));

        // the rest of the chain continues on the next layer
        let tail = hops.skip(1);
        assert forall|k: int| 0 <= k < tail.len() implies (#[trigger] tail[k].delim).len() > 0
            && aes_inverts(tail[k], layer_plain(tail, p, k)) && frame_clean(
            aes_enc_of(tail[k].key, tail[k].iv, layer_plain(tail, p, k)),
            tail[k].delim,
        ) by {
            assert(tail[k] == hops[k + 1]);
            assert(tail.skip(k + 1) =~= hops.skip(k + 2));
            assert(layer_plain(tail, p, k) == layer_plain(hops, p, k + 1));
        }
        lemma_onion_round_trip(tail, p);

        assert(empty_bufs(hops.len()).skip(1) =~= empty_bufs(tail.len()));
        assert(seq![Seq::<u8>::empty()] + empty_bufs(tail.len()) =~= empty_bufs(hops.len()));
    }
}

/// Appending one decryptable frame extends the concatenation by its
/// plaintext.
pub proof fn lemma_concat_decrypts_snoc(key: Seq<u8>, iv: Seq<u8>, frames: Seq<Seq<u8>>, f: Seq<u8>)
    ensures
        concat_decrypts(key, iv, frames.push(f)) == match (
            concat_decrypts(key, iv, frames),
            aes_dec_of(key, iv, f),
        ) {
            (Some(a), Some(b)) => Some::<Seq<u8>>(a + b),
            _ => None::<Seq<u8>>,
        },
    decreases frames.len(),
{
    if frames.len() == 0 {
        assert(frames.push(f).len() == 1);
        assert(frames.push(f)[0] == f);
        assert(frames.push(f).skip(1) =~= Seq::<Seq<u8>>::empty());
        assert(concat_decrypts(key, iv, Seq::<Seq<u8>>::empty()) == Some(Seq::<u8>::empty()));
        assert(frames =~= Seq::<Seq<u8>>::empty());
        if let Some(b) = aes_dec_of(key, iv, f) {
            assert(b + Seq::<u8>::empty() =~= b);
            assert(Seq::<u8>::empty() + b =~= b);
            assert(concat_decrypts(key, iv, frames.push(f)) == Some(b));
        } else {
            assert(concat_decrypts(key, iv, frames.push(f)) is None);
        }
    } else {
        assert(frames.push(f)[0] == frames[0]);
        assert(frames.push(f).skip(1) =~= frames.skip(1).push(f));
        lemma_concat_decrypts_snoc(key, iv, frames.skip(1), f);
        if let (Some(p0), Some(a1), Some(b)) = (
            aes_dec_of(key, iv, frames[0]),
            concat_decrypts(key, iv, frames.skip(1)),
            aes_dec_of(key, iv, f),
        ) {
            assert(p0 + (a1 + b) =~= (p0 + a1) + b);
        }
    }
}

/// Once a prefix of the frames fails to decrypt, the whole list does.
pub proof fn lemma_concat_decrypts_prefix_none(
    key: Seq<u8>,
    iv: Seq<u8>,
    frames: Seq<Seq<u8>>,
    m: int,
)
    requires
        0 <= m <= frames.len(),
        concat_decrypts(key, iv, frames.take(m)) is None,
    ensures
        concat_decrypts(key, iv, frames) is None,
    decreases frames.len() - m,
{
    if m == frames.len() {
        assert(frames.take(m) =~= frames);
    } else {
        assert(frames.take(m + 1) =~= frames.take(m).push(frames[m]));
        lemma_concat_decrypts_snoc(key, iv, frames.take(m), frames[m]);
        lemma_concat_decrypts_prefix_none(key, iv, frames, m + 1);
    }
}

} // verus!
