use vstd::prelude::*;
use crate::b64::{b64_dec_of, b64_decode, b64_encode, b64_of};
use crate::errors::Error;
use crate::rsa::{pem_parses, rsa_public_key_from_pem};

verus! {

/// The body of a relay's registration request to the directory.
pub struct AddNodeRequest {
    pub port: u16,
    pub public_key: String,
    pub version: String,
}

/// One directory entry, as served by the list endpoint: the relay's
/// externally visible address, its base64-encoded PEM public key, and its
/// version string.
#[derive(Clone)]
pub struct ListedNode {
    pub addr: String,
    pub public_key: String,
    pub version: String,
}

/// The body of the directory's list reply.
pub struct ListNodeResponse {
    pub nodes: Vec<ListedNode>,
}

/// True when some entry of `entries` carries the address `addr`.
pub open spec fn has_addr(entries: Seq<ListedNode>, addr: Seq<char>) -> bool {
    exists|i: int| 0 <= i < entries.len() && (#[trigger] entries[i]).addr@ == addr
}

/// The live set of relays, keyed by externally visible address: an
/// insertion-order-irrelevant mapping with unique keys.
pub struct Directory {
    entries: Vec<ListedNode>,
}

impl Directory {
    /// The entries as a sequence; its addresses are pairwise distinct.
    pub closed spec fn entries_spec(&self) -> Seq<ListedNode> {
        self.entries@
    }

    pub open spec fn wf(&self) -> bool {
        forall|i: int, j: int|
            0 <= i < j < self.entries_spec().len() ==> (#[trigger] self.entries_spec()[i]).addr@
                != (#[trigger] self.entries_spec()[j]).addr@
    }

    pub fn new() -> (r: Directory)
        ensures
            r.wf(),
            r.entries_spec().len() == 0,
    {
        Directory { entries: Vec::new() }
    }

    /// Removes the entry with the given address, if any; all other entries
    /// stay. After a relay fails its probe, the next list call excludes it.
    pub fn remove(&mut self, addr: &String)
        requires
            old(self).wf(),
        ensures
            final(self).wf(),
            !has_addr(final(self).entries_spec(), addr@),
            has_addr(old(self).entries_spec(), addr@) ==> exists|i: int|
                0 <= i < old(self).entries_spec().len() && (#[trigger] old(
                    self,
                ).entries_spec()[i]).addr@ == addr@ && final(self).entries_spec() == old(
                    self,
                ).entries_spec().remove(i),
            !has_addr(old(self).entries_spec(), addr@) ==> final(self).entries_spec() == old(
                self,
            ).entries_spec(),
    {
        let ghost orig = self.entries@;
        let mut k: usize = 0;
        while k < self.entries.len()
            invariant
                old(self).wf(),
                self.entries@ == orig,
                old(self).entries_spec() == orig,
                k <= orig.len(),
                forall|i: int| 0 <= i < k ==> (#[trigger] orig[i]).addr@ != addr@,
            decreases orig.len() - k,
        {
            if string_eq(&self.entries[k].addr, addr) {
                self.entries.remove(k);
                proof {
                    orig.remove_ensures(k as int);
                    assert(self.entries@ == orig.remove(k as int));
                    assert forall|x: int, y: int|
                        0 <= x < y < self.entries@.len() implies (
                    #[trigger] self.entries@[x]).addr@ != (#[trigger] self.entries@[y]).addr@ by {
                        orig.remove_ensures(k as int);
                        let xi: int = if x < k as int { x } else { x + 1 };
                        let yi: int = if y < k as int { y } else { y + 1 };
                        assert(self.entries@[x] == orig[xi]);
                        assert(self.entries@[y] == orig[yi]);
                        assert((old(self).entries_spec()[xi]).addr@ != (old(
                            self,
                        ).entries_spec()[yi]).addr@);
                    }
                    assert forall|x: int| 0 <= x < self.entries@.len() implies (
                    #[trigger] self.entries@[x]).addr@ != addr@ by {
                        orig.remove_ensures(k as int);
                        let xi: int = if x < k as int { x } else { x + 1 };
                        assert(self.entries@[x] == orig[xi]);
                        if xi != k as int {
                            if xi < k as int {
                                assert((old(self).entries_spec()[xi]).addr@ != (old(
                                    self,
                                ).entries_spec()[k as int]).addr@);
                            } else {
                                assert((old(self).entries_spec()[k as int]).addr@ != (old(
                                    self,
                                ).entries_spec()[xi]).addr@);
                            }
                        }
                    }
                    if has_addr(self.entries@, addr@) {
                        let i = choose|i: int|
                            0 <= i < self.entries@.len() && (#[trigger] self.entries@[i]).addr@
                                == addr@;
                        assert(false);
                    }
                }
                return ;
            }
            k += 1;
        }
        proof {
            if has_addr(orig, addr@) {
                let i = choose|i: int|
                    0 <= i < orig.len() && (#[trigger] orig[i]).addr@ == addr@;
                assert(false);
            }
        }
    }

    /// Inserts or replaces the entry for `node.addr`: afterwards exactly
    /// one entry carries that address and holds `node`'s key and version;
    /// entries under other addresses are untouched.
    pub fn upsert(&mut self, node: ListedNode)
        requires
            old(self).wf(),
        ensures
            final(self).wf(),
            final(self).entries_spec().contains(node),
            forall|i: int|
                0 <= i < final(self).entries_spec().len()
                    ==> (#[trigger] final(self).entries_spec()[i]) == node
                    || (old(self).entries_spec().contains(final(self).entries_spec()[i])
                        && final(self).entries_spec()[i].addr@ != node.addr@),
            forall|i: int|
                0 <= i < old(self).entries_spec().len()
                    && (#[trigger] old(self).entries_spec()[i]).addr@ != node.addr@
                    ==> final(self).entries_spec().contains(old(self).entries_spec()[i]),
    {
        self.remove(&node.addr);
        let ghost mid = self.entries@;
        self.entries.push(node);
        proof {
            let o = old(self).entries_spec();
            let a = node.addr@;
            assert(self.entries@ == mid.push(node));
            assert(self.entries@[mid.len() as int] == node);

            assert forall|i: int|
                0 <= i < mid.len() implies o.contains(#[trigger] mid[i]) && mid[i].addr@ != a by {
                if mid[i].addr@ == a {
                    assert(has_addr(mid, a));
                }
                if has_addr(o, a) {
                    let w = choose|w: int|
                        0 <= w < o.len() && (#[trigger] o[w]).addr@ == a && mid == o.remove(w);
                    o.remove_ensures(w);
                    if i < w {
                        assert(o[i] == mid[i]);
                    } else {
                        assert(o[i + 1] == mid[i]);
                    }
                }
            }

            assert forall|i: int|
                0 <= i < self.entries@.len() implies #[trigger] self.entries@[i] == node || (
            o.contains(self.entries@[i]) && self.entries@[i].addr@ != a) by {
                if i < mid.len() {
                    assert(mid[i] == self.entries@[i]);
                }
            }

            assert forall|i: int|
                0 <= i < o.len() && (#[trigger] o[i]).addr@ != a implies self.entries@.contains(
                o[i],
            ) by {
                if has_addr(o, a) {
                    let w = choose|w: int|
                        0 <= w < o.len() && (#[trigger] o[w]).addr@ == a && mid == o.remove(w);
                    o.remove_ensures(w);
                    if i < w {
                        assert(self.entries@[i] == mid[i]);
                        assert(mid[i] == o[i]);
                    } else {
                        assert(i != w);
                        assert(self.entries@[i - 1] == mid[i - 1]);
                        assert(mid[i - 1] == o[i]);
                    }
                } else {
                    assert(mid == o);
                    assert(self.entries@[i] == mid[i]);
                }
            }

            assert forall|i: int, j: int|
                0 <= i < j < self.entries@.len() implies (#[trigger] self.entries@[i]).addr@ != (
            #[trigger] self.entries@[j]).addr@ by {
                if j == mid.len() {
                    assert(mid[i].addr@ != a);
                } else {
                    assert(self.entries@[i] == mid[i] && self.entries@[j] == mid[j]);
                }
            }
        }
    }

    /// The current entries, for the list endpoint.
    pub fn list(&self) -> (r: &Vec<ListedNode>)
        ensures
            r@ == self.entries_spec(),
    {
        &self.entries
    }

    /// The entry registered under `addr`, if any.
    pub fn get(&self, addr: &String) -> (r: Option<&ListedNode>)
        requires
            self.wf(),
        ensures
            match r {
                Some(e) => self.entries_spec().contains(*e) && e.addr@ == addr@,
                None => !has_addr(self.entries_spec(), addr@),
            },
    {
        let mut k: usize = 0;
        while k < self.entries.len()
            invariant
                self.wf(),
                k <= self.entries@.len(),
                forall|i: int| 0 <= i < k ==> (#[trigger] self.entries@[i]).addr@ != addr@,
            decreases self.entries@.len() - k,
        {
            if string_eq(&self.entries[k].addr, addr) {
                return Some(&self.entries[k]);
            }
            k += 1;
        }
        proof {
            if has_addr(self.entries@, addr@) {
                let i = choose|i: int|
                    0 <= i < self.entries@.len() && (#[trigger] self.entries@[i]).addr@ == addr@;
                assert(false);
            }
        }
        None
    }
}

/// Equality of two strings, as the equality of their character sequences.
pub fn string_eq(a: &String, b: &String) -> (r: bool)
    ensures
        r == (a@ == b@),
{
    a.eq(b)
}

/// Equality of two byte strings.
pub fn bytes_eq(a: &[u8], b: &[u8]) -> (r: bool)
    ensures
        r == (a@ == b@),
{
    if a.len() != b.len() {
        proof {
            assert(a@ != b@);
        }
        return false;
    }
    let n = a.len();
    let mut k: usize = 0;
    while k < n
        invariant
            n == a@.len() == b@.len(),
            k <= n,
            forall|i: int| 0 <= i < k ==> a@[i] == b@[i],
        decreases n - k,
    {
        if a[k] != b[k] {
            return false;
        }
        k += 1;
    }
    proof {
        assert(a@ =~= b@);
    }
    true
}

/// Relies on String::from_utf8: it succeeds exactly on valid UTF-8 and
/// returns the string whose UTF-8 encoding is those bytes.
#[verifier::external_body]
pub(crate) fn bytes_to_string(b: Vec<u8>) -> (r: Option<String>)
    ensures
        r matches Some(s) ==> vstd::utf8::encode_utf8(s@) == b@,
{
    String::from_utf8(b).ok()
}

/// Builds a relay's registration request: the PEM public key is carried
/// base64-encoded beside the advertised port and version.
pub fn make_add_request(pem: &[u8], port: u16, version: String) -> (r: Result<AddNodeRequest, Error>)
    ensures
        match r {
            Ok(req) => req.port == port && vstd::utf8::encode_utf8(req.public_key@) == b64_of(
                pem@,
            ) && req.version@ == version@,
            Err(e) => e == Error::Directory,
        },
{
    let encoded = b64_encode(pem);
    match bytes_to_string(encoded) {
        Some(s) => Ok(AddNodeRequest { port, public_key: s, version }),
        None => Err(Error::Directory),
    }
}

/// Checks a relay's node-context probe reply against its registration
/// claim, and succeeds exactly when it matches: the reply must split at
/// its NUL into a PEM key and a version, the key must re-encode to the
/// claimed base64 string, and the version must match the claimed one byte
/// for byte.
pub fn context_matches(reply: &[u8], claimed_pk_b64: &[u8], claimed_version: &[u8]) -> (r: Result<
    (),
    Error,
>)
    ensures
        match r {
            Ok(()) => match crate::node::spec_context_decode(reply@) {
                Some(p) => b64_of(p.0) == claimed_pk_b64@ && p.1 == claimed_version@,
                None => false,
            },
            Err(e) => e == Error::Directory && !(match crate::node::spec_context_decode(reply@) {
                Some(p) => b64_of(p.0) == claimed_pk_b64@ && p.1 == claimed_version@,
                None => false,
            }),
        },
{
    let (pem, version) = match crate::node::context_decode(reply) {
        Ok(p) => p,
        Err(_) => {
            return Err(Error::Directory);
        },
    };
    let pk_b64 = b64_encode(pem.as_slice());
    if !bytes_eq(pk_b64.as_slice(), claimed_pk_b64) {
        return Err(Error::Directory);
    }
    if !bytes_eq(version.as_slice(), claimed_version) {
        return Err(Error::Directory);
    }
    Ok(())
}

/// Validates a registrant's claimed public key, accepting exactly the
/// well-formed claims: the base64 must decode, and the decoded bytes must
/// parse as a PEM RSA public key (and fit a C int). Returns the PEM bytes.
pub fn validate_public_key(public_key_b64: &[u8]) -> (r: Result<Vec<u8>, Error>)
    ensures
        match r {
            Ok(pem) => b64_dec_of(public_key_b64@) == Some(pem@) && pem@.len() < 0x8000_0000
                && pem_parses(pem@),
            Err(e) => e == Error::Directory && match b64_dec_of(public_key_b64@) {
                Some(p) => p.len() >= 0x8000_0000 || !pem_parses(p),
                None => true,
            },
        },
{
    let pem = match b64_decode(public_key_b64) {
        Ok(p) => p,
        Err(_) => {
            return Err(Error::Directory);
        },
    };
    if pem.len() >= 0x8000_0000 {
        return Err(Error::Directory);
    }
    match rsa_public_key_from_pem(pem.as_slice()) {
        Ok(_) => Ok(pem),
        Err(_) => Err(Error::Directory),
    }
}

} // verus!
