use vstd::prelude::*;
use crate::errors::Error;

verus! {

/// Length in bytes of the random frame delimiter.
pub const DELIMITER_LEN: usize = 16;

/// True when the delimiter `d` occurs in `s` starting at position `i`.
pub open spec fn is_delim_at(s: Seq<u8>, d: Seq<u8>, i: int) -> bool {
    0 <= i && i + d.len() <= s.len() && s.subrange(i, i + d.len()) == d
}

/// The position of the first occurrence of `d` in `s` at or after `i`.
pub open spec fn first_delim_from(s: Seq<u8>, d: Seq<u8>, i: int) -> Option<int>
    recommends
        0 <= i,
        d.len() > 0,
    decreases s.len() - i,
{
    if i < 0 || i + d.len() > s.len() || d.len() == 0 {
        None
    } else if is_delim_at(s, d, i) {
        Some(i)
    } else {
        first_delim_from(s, d, i + 1)
    }
}

/// A found occurrence lies in bounds, at or after the start of the search,
/// and nothing before it matches.
pub proof fn lemma_first_delim_from_props(s: Seq<u8>, d: Seq<u8>, i: int)
    requires
        0 <= i,
        d.len() > 0,
    ensures
        match first_delim_from(s, d, i) {
            Some(j) => i <= j && 0 <= j && j + d.len() <= s.len() && is_delim_at(s, d, j)
                && (forall|k: int| i <= k < j ==> !is_delim_at(s, d, k)),
            None => forall|k: int| i <= k ==> !is_delim_at(s, d, k),
        },
    decreases s.len() - i,
{
    if i + d.len() > s.len() {
        assert(forall|k: int| i <= k ==> !is_delim_at(s, d, k));
    } else if is_delim_at(s, d, i) {
    } else {
        lemma_first_delim_from_props(s, d, i + 1);
    }
}

/// A position that matches, with nothing matching before it, is what the
/// search finds.
pub proof fn lemma_first_delim_from_is(s: Seq<u8>, d: Seq<u8>, i: int, j: int)
    requires
        0 <= i <= j,
        d.len() > 0,
        is_delim_at(s, d, j),
        forall|k: int| i <= k < j ==> !is_delim_at(s, d, k),
    ensures
        first_delim_from(s, d, i) == Some(j),
    decreases j - i,
{
    if i == j {
    } else {
        assert(!is_delim_at(s, d, i));
        lemma_first_delim_from_is(s, d, i + 1, j);
    }
}

/// Splits a byte stream into the frames bounded by the delimiter `d` and
/// the trailing residue that no delimiter terminates yet.
pub open spec fn scan(s: Seq<u8>, d: Seq<u8>) -> (Seq<Seq<u8>>, Seq<u8>)
    decreases s.len(),
    via scan_decreases
{
    if d.len() == 0 {
        (Seq::empty(), s)
    } else {
        match first_delim_from(s, d, 0) {
            None => (Seq::empty(), s),
            Some(i) => {
                let rest = scan(s.subrange(i + d.len(), s.len() as int), d);
                (seq![s.subrange(0, i)] + rest.0, rest.1)
            },
        }
    }
}

#[via_fn]
proof fn scan_decreases(s: Seq<u8>, d: Seq<u8>) {
    if d.len() > 0 {
        lemma_first_delim_from_props(s, d, 0);
    }
}

/// True when `buf` holds the delimiter `d` starting at index `i`.
fn delim_matches(buf: &Vec<u8>, i: usize, d: &[u8; DELIMITER_LEN]) -> (r: bool)
    requires
        i + DELIMITER_LEN <= buf@.len(),
    ensures
        r == is_delim_at(buf@, d@, i as int),
{
    let n = buf.len();
    let mut k: usize = 0;
    while k < DELIMITER_LEN
        invariant
            i + DELIMITER_LEN <= n == buf@.len(),
            k <= DELIMITER_LEN,
            d@.len() == DELIMITER_LEN,
            forall|t: int| 0 <= t < k ==> buf@[i + t] == d@[t],
        decreases DELIMITER_LEN - k,
    {
        if buf[i + k] != d[k] {
            proof {
                assert(buf@.subrange(i as int, i + DELIMITER_LEN as int)[k as int]
                    == buf@[i + k]);
            }
            return false;
        }
        k += 1;
    }
    proof {
        assert(buf@.subrange(i as int, i + DELIMITER_LEN as int) =~= d@);
    }
    true
}

/// Copies `buf[a..b]` out of a slice into a fresh vector.
pub(crate) fn copy_range_slice(buf: &[u8], a: usize, b: usize) -> (r: Vec<u8>)
    requires
        a <= b <= buf@.len(),
    ensures
        r@ == buf@.subrange(a as int, b as int),
{
    let mut r: Vec<u8> = Vec::new();
    let mut k: usize = a;
    while k < b
        invariant
            a <= k <= b <= buf@.len(),
            r@ == buf@.subrange(a as int, k as int),
        decreases b - k,
    {
        r.push(buf[k]);
        k += 1;
        proof {
            assert(buf@.subrange(a as int, k as int)
                =~= buf@.subrange(a as int, k - 1).push(buf@[k - 1]));
        }
    }
    r
}

/// Appends the bytes of `src` to `dst`.
pub(crate) fn append_bytes(dst: &mut Vec<u8>, src: &[u8])
    ensures
        final(dst)@ == old(dst)@ + src@,
{
    let mut tail = vstd::slice::slice_to_vec(src);
    dst.append(&mut tail);
}

/// Copies `buf[a..b]` out into a fresh vector.
pub(crate) fn copy_range(buf: &Vec<u8>, a: usize, b: usize) -> (r: Vec<u8>)
    requires
        a <= b <= buf@.len(),
    ensures
        r@ == buf@.subrange(a as int, b as int),
{
    let mut r: Vec<u8> = Vec::new();
    let mut k: usize = a;
    while k < b
        invariant
            a <= k <= b <= buf@.len(),
            r@ == buf@.subrange(a as int, k as int),
        decreases b - k,
    {
        r.push(buf[k]);
        k += 1;
        proof {
            assert(buf@.subrange(a as int, k as int)
                =~= buf@.subrange(a as int, k - 1).push(buf@[k - 1]));
        }
    }
    r
}

/// Stateful consumer of the delimiter-framed byte stream between the
/// gateway and one relay. Arbitrary chunks are appended to an internal
/// buffer; every frame now terminated by the delimiter is handed out and
/// consumed, and the trailing partial frame stays pending.
pub struct EncryptedPayload {
    inner: Vec<u8>,
}

impl EncryptedPayload {
    /// The bytes received so far that no delimiter has terminated yet.
    pub closed spec fn buffered(&self) -> Seq<u8> {
        self.inner@
    }

    pub fn new() -> (r: Self)
        ensures
            r.buffered() == Seq::<u8>::empty(),
    {
        EncryptedPayload { inner: Vec::new() }
    }

    /// A fresh random delimiter, distinct per relay per connection.
    pub fn new_delimiter() -> (r: Result<[u8; DELIMITER_LEN], Error>)
        ensures
            r matches Err(e) ==> e == Error::Crypto,
    {
        let mut v = crate::aes::zero_vec(DELIMITER_LEN);
        if crate::aes::rand_fill(&mut v).is_err() {
            return Err(Error::Crypto);
        }
        let mut out = [0u8; DELIMITER_LEN];
        let mut k: usize = 0;
        while k < DELIMITER_LEN
            invariant
                k <= DELIMITER_LEN,
                v@.len() == DELIMITER_LEN,
            decreases DELIMITER_LEN - k,
        {
            out[k] = v[k];
            k += 1;
        }
        Ok(out)
    }

    /// Appends `payload` to the pending buffer and returns every complete
    /// frame now bounded by `delimiter`, oldest first; the delimiter bytes
    /// themselves are discarded and the residue after the last delimiter
    /// occurrence stays pending. The scan restarts at the buffer head, so
    /// the result is exact for whatever delimiter each call passes.
    pub fn read(&mut self, payload: &[u8], delimiter: &[u8; DELIMITER_LEN]) -> (r: Result<
        Vec<Vec<u8>>,
        Error,
    >)
        ensures
            ({
                let all = old(self).buffered() + payload@;
                match r {
                    Ok(frames) => frames.deep_view() == scan(all, delimiter@).0
                        && final(self).buffered() == scan(all, delimiter@).1,
                    Err(_) => false,
                }
            }),
    {
        let mut appended = vstd::slice::slice_to_vec(payload);
        self.inner.append(&mut appended);

        let ghost all = self.inner@;
        let ghost d = delimiter@;
        assert(all == old(self).buffered() + payload@);

        let mut frames: Vec<Vec<u8>> = Vec::new();
        let mut start: usize = 0;

        proof {
            assert(all.subrange(0, all.len() as int) =~= all);
            assert(frames.deep_view() =~~= Seq::<Seq<u8>>::empty());
            assert(frames.deep_view() + scan(all, d).0 =~~= scan(all, d).0);
        }

        if self.inner.len() >= DELIMITER_LEN {
            let mut i: usize = 0;
            while i <= self.inner.len() - DELIMITER_LEN
                invariant
                    d == delimiter@,
                    d.len() == DELIMITER_LEN,
                    self.inner@ == all,
                    self.inner.len() >= DELIMITER_LEN,
                    start <= i,
                    i <= all.len(),
                    start <= all.len(),
                    scan(all, d).0 == frames.deep_view() + scan(
                        all.subrange(start as int, all.len() as int),
                        d,
                    ).0,
                    scan(all, d).1 == scan(all.subrange(start as int, all.len() as int), d).1,
                    forall|k: int| start <= k < i ==> !is_delim_at(all, d, k),
                decreases all.len() - i,
            {
                if delim_matches(&self.inner, i, delimiter) {
                    let frame = copy_range(&self.inner, start, i);
                    let ghost pre = frames.deep_view();
                    let ghost suf = all.subrange(start as int, all.len() as int);
                    proof {
                        assert forall|k: int| 0 <= k < i - start implies !is_delim_at(
                            suf,
                            d,
                            k,
                        ) by {
                            if is_delim_at(suf, d, k) {
                                assert(suf.subrange(k, k + d.len() as int) =~= all.subrange(
                                    start + k,
                                    start + k + d.len() as int,
                                ));
                                assert(is_delim_at(all, d, start + k));
                            }
                        }
                        assert(suf.subrange(i - start, i - start + d.len() as int) =~= all.subrange(
                            i as int,
                            i + d.len() as int,
                        ));
                        assert(is_delim_at(suf, d, i - start));
                        lemma_first_delim_from_is(suf, d, 0, i - start);
                        assert(suf.subrange(0, i - start) =~= all.subrange(start as int, i as int));
                        assert(suf.subrange(i - start + d.len() as int, suf.len() as int)
                            =~= all.subrange(i + DELIMITER_LEN as int, all.len() as int));
                        assert(frame@ == suf.subrange(0, i - start));
                    }
                    frames.push(frame);
                    proof {
                        let nsuf = all.subrange(i + DELIMITER_LEN as int, all.len() as int);
                        assert(frames.deep_view() =~~= pre.push(frame@));
                        assert(scan(suf, d).0 == seq![frame@] + scan(nsuf, d).0);
                        assert(scan(suf, d).1 == scan(nsuf, d).1);
                        assert(pre + (seq![frame@] + scan(nsuf, d).0) =~~= pre.push(frame@) + scan(
                            nsuf,
                            d,
                        ).0);
                    }
                    i = i + DELIMITER_LEN;
                    start = i;
                } else {
                    i = i + 1;
                }
            }
            proof {
                let suf = all.subrange(start as int, all.len() as int);
                lemma_first_delim_from_props(suf, d, 0);
                if let Some(j) = first_delim_from(suf, d, 0) {
                    assert(suf.subrange(j, j + d.len() as int) =~= all.subrange(
                        start + j,
                        start + j + d.len() as int,
                    ));
                    assert(is_delim_at(all, d, start + j));
                    assert(false);
                }
            }
        } else {
            proof {
                let suf = all.subrange(start as int, all.len() as int);
                lemma_first_delim_from_props(suf, d, 0);
                if let Some(j) = first_delim_from(suf, d, 0) {
                    assert(false);
                }
            }
        }

        proof {
            let suf = all.subrange(start as int, all.len() as int);
            assert(scan(suf, d).0 =~~= Seq::<Seq<u8>>::empty());
            assert(frames.deep_view() + scan(suf, d).0 =~~= frames.deep_view());
        }

        let residue = copy_range(&self.inner, start, self.inner.len());
        self.inner = residue;
        Ok(frames)
    }
}

/// A frame that never contains the delimiter, not even across its junction
/// with the delimiter that follows it. Random ciphertext violates this with
/// probability about 2^-128 per 16-byte window.
pub open spec fn frame_clean(f: Seq<u8>, d: Seq<u8>) -> bool {
    forall|i: int| 0 <= i < f.len() ==> !is_delim_at(f + d, d, i)
}

/// The wire encoding of a list of frames: each frame followed by one copy
/// of the delimiter.
pub open spec fn encode_frames(frames: Seq<Seq<u8>>, d: Seq<u8>) -> Seq<u8>
    decreases frames.len(),
{
    if frames.len() == 0 {
        Seq::empty()
    } else {
        frames[0] + d + encode_frames(frames.skip(1), d)
    }
}

/// A buffer shorter than the delimiter yields no frame and stays pending
/// whole. In particular any proper prefix of the delimiter alone yields
/// the empty list.
pub proof fn lemma_scan_short(s: Seq<u8>, d: Seq<u8>)
    requires
        s.len() < d.len(),
    ensures
        scan(s, d).0 == Seq::<Seq<u8>>::empty(),
        scan(s, d).1 == s,
{
}

/// Scanning a clean frame, its delimiter, and then anything else yields
/// that frame first and then whatever the tail yields.
pub proof fn lemma_scan_frame_prefix(f: Seq<u8>, d: Seq<u8>, t: Seq<u8>)
    requires
        d.len() > 0,
        frame_clean(f, d),
    ensures
        scan(f + d + t, d).0 == seq![f] + scan(t, d).0,
        scan(f + d + t, d).1 == scan(t, d).1,
{
    let s = f + d + t;
    assert(s.subrange(f.len() as int, (f.len() + d.len()) as int) =~= d);
    assert(is_delim_at(s, d, f.len() as int));
    assert forall|k: int| 0 <= k < f.len() implies !is_delim_at(s, d, k) by {
        if is_delim_at(s, d, k) {
            assert(s.subrange(k, k + d.len()) =~= (f + d).subrange(k, k + d.len()));
            assert(is_delim_at(f + d, d, k));
        }
    }
    lemma_first_delim_from_is(s, d, 0, f.len() as int);
    assert(s.subrange(0, f.len() as int) =~= f);
    assert(s.subrange((f.len() + d.len()) as int, s.len() as int) =~= t);
}

/// Feeding the exact encoding of a list of clean frames yields exactly
/// that list, with nothing left pending, whenever the feed ends on a
/// delimiter.
pub proof fn lemma_scan_encoded(frames: Seq<Seq<u8>>, d: Seq<u8>)
    requires
        d.len() > 0,
        forall|k: int| 0 <= k < frames.len() ==> frame_clean(#[trigger] frames[k], d),
    ensures
        scan(encode_frames(frames, d), d).0 == frames,
        scan(encode_frames(frames, d), d).1 == Seq::<u8>::empty(),
    decreases frames.len(),
{
    if frames.len() == 0 {
    } else {
        let rest = frames.skip(1);
        lemma_scan_frame_prefix(frames[0], d, encode_frames(rest, d));
        lemma_scan_encoded(rest, d);
        assert(seq![frames[0]] + rest =~= frames);
    }
}

/// Feeding one clean frame, its delimiter, and a tail shorter than the
/// delimiter yields exactly that frame and keeps the tail pending.
pub proof fn lemma_scan_partial_tail(p: Seq<u8>, d: Seq<u8>, suffix: Seq<u8>)
    requires
        d.len() > 0,
        frame_clean(p, d),
        suffix.len() < d.len(),
    ensures
        scan(p + d + suffix, d).0 == seq![p],
        scan(p + d + suffix, d).1 == suffix,
{
    lemma_scan_frame_prefix(p, d, suffix);
    lemma_scan_short(suffix, d);
    assert(seq![p] + Seq::<Seq<u8>>::empty() =~= seq![p]);
}

/// Chunking does not change the outcome: scanning `a` and then `b` on top
/// of `a`'s residue yields, in total, the same frames and the same final
/// residue as scanning `a + b` in one piece.
pub proof fn lemma_scan_chunked(a: Seq<u8>, b: Seq<u8>, d: Seq<u8>)
    requires
        d.len() > 0,
    ensures
        scan(a + b, d).0 == scan(a, d).0 + scan(scan(a, d).1 + b, d).0,
        scan(a + b, d).1 == scan(scan(a, d).1 + b, d).1,
    decreases a.len(),
{
    lemma_first_delim_from_props(a, d, 0);
    match first_delim_from(a, d, 0) {
        None => {
            assert(scan(a, d).0 == Seq::<Seq<u8>>::empty());
            assert(scan(a, d).1 == a);
            assert(Seq::<Seq<u8>>::empty() + scan(a + b, d).0 =~= scan(a + b, d).0);
        },
        Some(i) => {
            assert((a + b).subrange(i, i + d.len()) =~= a.subrange(i, i + d.len()));
            assert(is_delim_at(a + b, d, i));
            assert forall|k: int| 0 <= k < i implies !is_delim_at(a + b, d, k) by {
                if is_delim_at(a + b, d, k) {
                    assert((a + b).subrange(k, k + d.len()) =~= a.subrange(k, k + d.len()));
                    assert(is_delim_at(a, d, k));
                }
            }
            lemma_first_delim_from_is(a + b, d, 0, i);
            let a2 = a.subrange(i + d.len(), a.len() as int);
            assert((a + b).subrange(i + d.len(), (a + b).len() as int) =~= a2 + b);
            assert((a + b).subrange(0, i) =~= a.subrange(0, i));
            lemma_scan_chunked(a2, b, d);
            assert(seq![a.subrange(0, i)] + (scan(a2, d).0 + scan(scan(a2, d).1 + b, d).0)
                =~= (seq![a.subrange(0, i)] + scan(a2, d).0) + scan(scan(a2, d).1 + b, d).0);
        },
    }
}

/// The first occurrence of a one-byte delimiter is the first index at or
/// after `from` holding that byte.
pub proof fn lemma_first_byte_from(s: Seq<u8>, b: u8, from: int, k: int)
    requires
        0 <= from <= k < s.len(),
        s[k] == b,
        forall|i: int| from <= i < k ==> s[i] != b,
    ensures
        first_delim_from(s, seq![b], from) == Some(k),
{
    assert(s.subrange(k, k + 1) =~= seq![b]);
    assert(is_delim_at(s, seq![b], k));
    assert forall|i: int| from <= i < k implies !is_delim_at(s, seq![b], i) by {
        if is_delim_at(s, seq![b], i) {
            assert(s.subrange(i, i + 1)[0] == s[i]);
        }
    }
    lemma_first_delim_from_is(s, seq![b], from, k);
}

/// With the byte absent at and after `from`, the search finds nothing.
pub proof fn lemma_no_byte_from(s: Seq<u8>, b: u8, from: int)
    requires
        0 <= from,
        forall|i: int| from <= i < s.len() ==> s[i] != b,
    ensures
        first_delim_from(s, seq![b], from) is None,
{
    lemma_first_delim_from_props(s, seq![b], from);
    if let Some(i) = first_delim_from(s, seq![b], from) {
        assert(s.subrange(i, i + 1)[0] == s[i]);
        assert(false);
    }
}

/// The concatenation of a list of chunks.
pub open spec fn concat_chunks(chunks: Seq<Seq<u8>>) -> Seq<u8>
    decreases chunks.len(),
{
    if chunks.len() == 0 {
        Seq::empty()
    } else {
        chunks[0] + concat_chunks(chunks.skip(1))
    }
}

/// What feeding the chunks one after another to a reader whose pending
/// buffer is `buf` yields: all frames emitted across the feeds, in order,
/// and the final pending buffer. Each step is one `scan`, exactly as the
/// contract of `read` states of each call.
pub open spec fn feed_from(buf: Seq<u8>, chunks: Seq<Seq<u8>>, d: Seq<u8>) -> (
    Seq<Seq<u8>>,
    Seq<u8>,
)
    decreases chunks.len(),
{
    if chunks.len() == 0 {
        (Seq::empty(), buf)
    } else {
        let sc = scan(buf + chunks[0], d);
        let rest = feed_from(sc.1, chunks.skip(1), d);
        (sc.0 + rest.0, rest.1)
    }
}

/// Chunking does not change the outcome, for any number of feeds: a reader
/// whose pending buffer holds no complete delimiter (true of every reader
/// state `read` produces) emits, over any sequence of feeds, exactly the
/// frames of the one-piece feed of their concatenation, and ends with the
/// same pending buffer.
pub proof fn lemma_feed_from_chunks(buf: Seq<u8>, chunks: Seq<Seq<u8>>, d: Seq<u8>)
    requires
        d.len() > 0,
        forall|k: int| !is_delim_at(buf, d, k),
    ensures
        feed_from(buf, chunks, d).0 == scan(buf + concat_chunks(chunks), d).0,
        feed_from(buf, chunks, d).1 == scan(buf + concat_chunks(chunks), d).1,
    decreases chunks.len(),
{
    if chunks.len() == 0 {
        assert(buf + Seq::<u8>::empty() =~= buf);
        lemma_first_delim_from_props(buf, d, 0);
        if let Some(i) = first_delim_from(buf, d, 0) {
            assert(false);
        }
        assert(scan(buf, d).0 == Seq::<Seq<u8>>::empty());
        assert(Seq::<Seq<u8>>::empty() + Seq::<Seq<u8>>::empty() =~= Seq::<Seq<u8>>::empty());
    } else {
        let sc = scan(buf + chunks[0], d);
        lemma_scan_residue_clean(buf + chunks[0], d);
        lemma_feed_from_chunks(sc.1, chunks.skip(1), d);
        lemma_scan_chunked(buf + chunks[0], concat_chunks(chunks.skip(1)), d);
        assert((buf + chunks[0]) + concat_chunks(chunks.skip(1)) =~= buf + concat_chunks(chunks));
    }
}

/// Feeding any chunk partition of the encoding of a list of clean frames
/// to a fresh reader eventually yields exactly that list, with nothing
/// pending, whenever the stream ends on a delimiter.
pub proof fn lemma_feed_encoded_chunks(chunks: Seq<Seq<u8>>, frames: Seq<Seq<u8>>, d: Seq<u8>)
    requires
        d.len() > 0,
        concat_chunks(chunks) == encode_frames(frames, d),
        forall|k: int| 0 <= k < frames.len() ==> frame_clean(#[trigger] frames[k], d),
    ensures
        feed_from(Seq::empty(), chunks, d).0 == frames,
        feed_from(Seq::empty(), chunks, d).1 == Seq::<u8>::empty(),
{
    assert forall|k: int| !is_delim_at(Seq::<u8>::empty(), d, k) by {}
    lemma_feed_from_chunks(Seq::empty(), chunks, d);
    assert(Seq::<u8>::empty() + concat_chunks(chunks) =~= concat_chunks(chunks));
    lemma_scan_encoded(frames, d);
}

/// What a scan leaves pending never contains a complete delimiter: every
/// byte up to and including each recognised delimiter has been consumed.
pub proof fn lemma_scan_residue_clean(s: Seq<u8>, d: Seq<u8>)
    requires
        d.len() > 0,
    ensures
        forall|k: int| !(#[trigger] is_delim_at(scan(s, d).1, d, k)),
    decreases s.len(),
{
    lemma_first_delim_from_props(s, d, 0);
    match first_delim_from(s, d, 0) {
        None => {
            assert(scan(s, d).1 == s);
            assert forall|k: int| !(is_delim_at(scan(s, d).1, d, k)) by {
                if 0 <= k {
                    assert(!is_delim_at(s, d, k));
                }
            }
        },
        Some(i) => {
            let s2 = s.subrange(i + d.len(), s.len() as int);
            lemma_scan_residue_clean(s2, d);
            assert(scan(s, d).1 == scan(s2, d).1);
            assert forall|k: int| !(is_delim_at(scan(s, d).1, d, k)) by {
                assert(!is_delim_at(scan(s2, d).1, d, k));
            }
        },
    }
}

} // verus!
