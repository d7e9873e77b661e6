//! Symmetric key and nonce values, the decoded frame header, and the trusted
//! boundary to the authenticated-encryption primitive.

use vstd::prelude::*;

use crate::bytes::{succ_be, succ_be_n, lemma_succ_be_len};

verus! {

/// Number of bytes in a symmetric key.
pub const KEY_SIZE: usize = 32;

/// Number of bytes in a nonce.
pub const NONCE_SIZE: usize = 24;

/// Number of bytes in an authentication tag.
pub const MAC_SIZE: usize = 16;

/// What the authenticated-decryption primitive yields for a given ciphertext,
/// authentication tag, nonce and key: `Some(plaintext)` when the tag verifies,
/// `None` when it does not.  The result depends on these four values alone.
pub uninterp spec fn secretbox_open(
    cipher: Seq<u8>,
    tag: Seq<u8>,
    nonce: Seq<u8>,
    key: Seq<u8>,
) -> Option<Seq<u8>>;

/// A symmetric key, fixed for the lifetime of a stream.
pub struct Key {
    bytes: Vec<u8>,
}

impl View for Key {
    type V = Seq<u8>;

    closed spec fn view(&self) -> Seq<u8> {
        self.bytes@
    }
}

impl Key {
    /// A key is exactly `KEY_SIZE` bytes.
    pub closed spec fn wf(&self) -> bool {
        self.bytes@.len() == KEY_SIZE
    }

    /// Wrap raw bytes as a key; rejects byte strings of the wrong length.
    pub fn from_bytes(bytes: Vec<u8>) -> (r: Option<Key>)
        ensures
            r is Some <==> bytes@.len() == KEY_SIZE,
            r is Some ==> r.unwrap().wf() && r.unwrap()@ == bytes@,
    {
        if bytes.len() == KEY_SIZE {
            Some(Key { bytes })
        } else {
            None
        }
    }
}

/// A nonce: a big-endian counter advanced by one step for every header
/// decryption and every body decryption, in lockstep with the sender.
pub struct Nonce {
    bytes: Vec<u8>,
    initial: Ghost<Seq<u8>>,
    steps: Ghost<nat>,
}

impl View for Nonce {
    type V = Seq<u8>;

    closed spec fn view(&self) -> Seq<u8> {
        self.bytes@
    }
}

impl Nonce {
    /// The value this nonce was created with.
    pub closed spec fn initial(&self) -> Seq<u8> {
        self.initial@
    }

    /// How many times this nonce has been advanced since its creation.
    pub closed spec fn steps(&self) -> nat {
        self.steps@
    }

    /// A nonce is exactly `NONCE_SIZE` bytes, and its current value is its
    /// initial value advanced by `steps()` big-endian increments.
    pub closed spec fn wf(&self) -> bool {
        &&& self.bytes@.len() == NONCE_SIZE
        &&& self.initial@.len() == NONCE_SIZE
        &&& self.bytes@ == succ_be_n(self.initial@, self.steps@)
    }

    /// Wrap raw bytes as a nonce; rejects byte strings of the wrong length.
    pub fn from_bytes(bytes: Vec<u8>) -> (r: Option<Nonce>)
        ensures
            r is Some <==> bytes@.len() == NONCE_SIZE,
            r is Some ==> {
                &&& r.unwrap().wf()
                &&& r.unwrap()@ == bytes@
                &&& r.unwrap().initial() == bytes@
                &&& r.unwrap().steps() == 0
            },
    {
        if bytes.len() == NONCE_SIZE {
            let ghost view = bytes@;
            Some(Nonce { bytes, initial: Ghost(view), steps: Ghost(0) })
        } else {
            None
        }
    }

    /// The raw counter bytes.
    pub fn as_bytes(&self) -> (r: &Vec<u8>)
        ensures
            r@ == self@,
    {
        &self.bytes
    }

    /// Advance the counter by one big-endian step, wrapping on overflow.
    pub fn increment(&mut self)
        requires
            old(self).wf(),
        ensures
            final(self).wf(),
            final(self)@ == succ_be(old(self)@),
            final(self).initial() == old(self).initial(),
            final(self).steps() == old(self).steps() + 1,
    {
        crate::bytes::increment_be(&mut self.bytes);
        proof {
            self.steps@ = self.steps@ + 1;
            lemma_succ_be_len(succ_be_n(self.initial@, (self.steps@ - 1) as nat));
        }
    }
}

/// A well-formed nonce stands exactly `steps()` big-endian increments past
/// the value it was created with.
pub proof fn lemma_nonce_value(n: &Nonce)
    requires
        n.wf(),
    ensures
        n@ == succ_be_n(n.initial(), n.steps()),
        n@.len() == NONCE_SIZE,
{
}

/// A decrypted frame header: the plaintext length of the frame's body and the
/// authentication tag of the encrypted body.
pub struct PlainHeader {
    packet_len: u16,
    packet_mac: Vec<u8>,
}

impl PlainHeader {
    /// The announced plaintext body length.
    pub closed spec fn len_spec(&self) -> int {
        self.packet_len as int
    }

    /// The body's authentication tag.
    pub closed spec fn mac_spec(&self) -> Seq<u8> {
        self.packet_mac@
    }

    /// A header's tag is exactly `MAC_SIZE` bytes and its length is within bounds.
    pub open spec fn wf(&self) -> bool {
        &&& self.mac_spec().len() == MAC_SIZE
        &&& 0 <= self.len_spec() <= crate::MAX_PACKET_SIZE as int
    }

    /// Assemble a header from its decoded parts.
    pub fn assemble(packet_len: u16, packet_mac: Vec<u8>) -> (r: PlainHeader)
        requires
            packet_len <= crate::MAX_PACKET_SIZE,
            packet_mac@.len() == MAC_SIZE,
        ensures
            r.wf(),
            r.len_spec() == packet_len as int,
            r.mac_spec() == packet_mac@,
    {
        PlainHeader { packet_len, packet_mac }
    }

    /// The body's authentication tag.
    pub fn mac_ref(&self) -> (r: &Vec<u8>)
        ensures
            r@ == self.mac_spec(),
    {
        &self.packet_mac
    }

    /// The announced plaintext body length.
    pub fn get_packet_len(&self) -> (r: u16)
        ensures
            r as int == self.len_spec(),
    {
        self.packet_len
    }
}

/// Relies on `sodiumoxide::crypto::secretbox::open_detached`: verifies `tag`
/// over `buf[start..start+len]` under `nonce` and `key` and, exactly when
/// verification succeeds, replaces that region in place by the plaintext of
/// the same length; when verification fails it leaves the buffer as it was.
/// The outcome is a function of ciphertext, tag, nonce and key alone, which
/// `secretbox_open` names.
#[verifier::external_body]
fn open_region(
    buf: &mut Vec<u8>,
    start: usize,
    len: usize,
    tag: &Vec<u8>,
    key: &Key,
    nonce: &Nonce,
) -> (ok: bool)
    requires
        start + len <= old(buf)@.len(),
        tag@.len() == MAC_SIZE,
        key.wf(),
        nonce.wf(),
    ensures
        final(buf)@.len() == old(buf)@.len(),
        forall|i: int|
            0 <= i < old(buf)@.len() && !(start <= i < start + len) ==> final(buf)@[i] == old(
                buf,
            )@[i],
        ok == (secretbox_open(
            old(buf)@.subrange(start as int, start + len),
            tag@,
            nonce@,
            key@,
        ) is Some),
        ok ==> final(buf)@.subrange(start as int, start + len) == secretbox_open(
            old(buf)@.subrange(start as int, start + len),
            tag@,
            nonce@,
            key@,
        ).unwrap(),
        secretbox_open(old(buf)@.subrange(start as int, start + len), tag@, nonce@, key@) matches
            Some(p) ==> p.len() == len,
        !ok ==> final(buf)@ == old(buf)@,
{
    let t = sodiumoxide::crypto::secretbox::Tag::from_slice(tag).unwrap();
    let k = sodiumoxide::crypto::secretbox::Key::from_slice(&key.bytes).unwrap();
    let n = sodiumoxide::crypto::secretbox::Nonce::from_slice(&nonce.bytes).unwrap();
    sodiumoxide::crypto::secretbox::open_detached(&mut buf[start..start + len], &t, &n, &k).is_ok()
}

/// Decrypt and authenticate `buf[start..start+len]` in place, advancing the
/// nonce by exactly one step when — and only when — the tag verifies.
pub(crate) fn open_region_step(
    buf: &mut Vec<u8>,
    start: usize,
    len: usize,
    tag: &Vec<u8>,
    key: &Key,
    nonce: &mut Nonce,
) -> (ok: bool)
    requires
        start + len <= old(buf)@.len(),
        tag@.len() == MAC_SIZE,
        key.wf(),
        old(nonce).wf(),
    ensures
        final(nonce).wf(),
        final(nonce).initial() == old(nonce).initial(),
        final(buf)@.len() == old(buf)@.len(),
        forall|i: int|
            0 <= i < old(buf)@.len() && !(start <= i < start + len) ==> final(buf)@[i] == old(
                buf,
            )@[i],
        ok == (secretbox_open(
            old(buf)@.subrange(start as int, start + len),
            tag@,
            old(nonce)@,
            key@,
        ) is Some),
        ok ==> {
            &&& final(buf)@.subrange(start as int, start + len) == secretbox_open(
                old(buf)@.subrange(start as int, start + len),
                tag@,
                old(nonce)@,
                key@,
            ).unwrap()
            &&& final(nonce)@ == succ_be(old(nonce)@)
            &&& final(nonce).steps() == old(nonce).steps() + 1
        },
        secretbox_open(old(buf)@.subrange(start as int, start + len), tag@, old(nonce)@, key@)
            matches Some(p) ==> p.len() == len,
        !ok ==> *final(nonce) == *old(nonce) && final(buf)@ == old(buf)@,
{
    let ok = open_region(buf, start, len, tag, key, nonce);
    if ok {
        nonce.increment();
    }
    ok
}

} // verus!
