//! The frame buffer state machine: accumulate ciphertext, decrypt a header,
//! accumulate the body, decrypt it in place, and drain the plaintext.

use vstd::prelude::*;

use crate::bytes::{be16, succ_be};
use crate::crypto::{secretbox_open, Key, Nonce, PlainHeader, MAC_SIZE};
use crate::{CYPHER_HEADER_SIZE, MAX_PACKET_USIZE};

verus! {

/// Number of bytes of a decrypted header: the body length plus the body's tag.
pub const PLAIN_HEADER_SIZE: usize = 18;

/// The authentication tag of an encrypted header standing at the front of `s`.
pub open spec fn header_tag(s: Seq<u8>) -> Seq<u8> {
    s.subrange(0, MAC_SIZE as int)
}

/// The ciphertext of an encrypted header standing at the front of `s`.
pub open spec fn header_cipher(s: Seq<u8>) -> Seq<u8> {
    s.subrange(MAC_SIZE as int, CYPHER_HEADER_SIZE as int)
}

/// What decrypting the header at the front of `s` yields under this nonce and key.
pub open spec fn header_open(s: Seq<u8>, nonce: Seq<u8>, key: Seq<u8>) -> Option<Seq<u8>> {
    secretbox_open(header_cipher(s), header_tag(s), nonce, key)
}

/// The body length a decrypted header announces, big-endian.
pub open spec fn header_len_of(hp: Seq<u8>) -> int {
    be16(hp[0], hp[1])
}

/// The body's authentication tag carried inside a decrypted header.
pub open spec fn header_mac_of(hp: Seq<u8>) -> Seq<u8> {
    hp.subrange(2, PLAIN_HEADER_SIZE as int)
}

/// What decrypting the body buffered behind the header in `data` yields,
/// verified against the tag that header `h` carried.
pub open spec fn body_open(data: Seq<u8>, h: PlainHeader, nonce: Seq<u8>, key: Seq<u8>) -> Option<
    Seq<u8>,
> {
    secretbox_open(
        data.subrange(CYPHER_HEADER_SIZE as int, CYPHER_HEADER_SIZE + h.len_spec()),
        h.mac_spec(),
        nonce,
        key,
    )
}

/// Capacity of the frame buffer: one encrypted header plus one body of the
/// largest size a header may announce.
pub const READ_BUFFER_SIZE: usize = CYPHER_HEADER_SIZE + MAX_PACKET_USIZE;

/// The plaintext that the wire bytes `s` carry under `nonce` and `key`:
/// `Some` of the concatenated frame bodies when `s` is a whole number of
/// valid frames — each header opening under the running nonce, announcing a
/// length within bounds, and each body opening under the next nonce — and
/// `None` otherwise.
pub open spec fn stream_plain(s: Seq<u8>, nonce: Seq<u8>, key: Seq<u8>) -> Option<Seq<u8>>
    decreases s.len(),
{
    if s.len() == 0 {
        Some(Seq::empty())
    } else if s.len() < CYPHER_HEADER_SIZE {
        None
    } else {
        match header_open(s, nonce, key) {
            Option::None => None,
            Option::Some(hp) => {
                let plen = header_len_of(hp);
                if plen > MAX_PACKET_USIZE || s.len() < CYPHER_HEADER_SIZE + plen {
                    None
                } else {
                    match secretbox_open(
                        s.subrange(CYPHER_HEADER_SIZE as int, CYPHER_HEADER_SIZE + plen),
                        header_mac_of(hp),
                        succ_be(nonce),
                        key,
                    ) {
                        Option::None => None,
                        Option::Some(body) => {
                            match stream_plain(
                                s.subrange(CYPHER_HEADER_SIZE + plen, s.len() as int),
                                succ_be(succ_be(nonce)),
                                key,
                            ) {
                                Option::None => None,
                                Option::Some(rest) => Some(body + rest),
                            }
                        },
                    }
                }
            },
        }
    }
}

/// `p` prepended to a decoding result, when there is one.
pub open spec fn prepend_plain(p: Seq<u8>, o: Option<Seq<u8>>) -> Option<Seq<u8>> {
    match o {
        Option::Some(q) => Some(p + q),
        Option::None => None,
    }
}

/// Where in its cycle the frame buffer currently stands.
#[derive(Clone, Copy, Debug, PartialEq, Eq, Structural)]
pub enum ReaderBufferMode {
    /// No complete encrypted header is buffered yet.
    WaitingForHeader,
    /// The header is decrypted; the encrypted body is still incomplete.
    WaitingForPacket,
    /// The encrypted body is fully buffered but not yet decrypted.
    ReadyToDecrypt,
    /// The body is decrypted and some plaintext is still undelivered.
    HoldsPlaintextPacket,
}

/// Why a stream died.  Every kind is unrecoverable: the session must be
/// discarded once one of these has been returned.
#[derive(Clone, Copy, Debug, PartialEq, Eq, Structural)]
pub enum UnboxError {
    /// A header or body failed integrity verification.
    AuthenticationFailure,
    /// A decrypted header announced a body longer than the protocol allows.
    OversizedPacket,
    /// The source ended while a header or body was only partially buffered.
    TruncatedStream,
}

/// A fixed-capacity buffer holding, in turn, raw ciphertext, a decrypted
/// header, and decrypted plaintext, together with the cursors and mode of the
/// framing state machine.
pub struct ReaderBuffer {
    storage: Vec<u8>,
    offset: usize,
    length: usize,
    header: Option<PlainHeader>,
    mode: ReaderBufferMode,
    headers_decrypted: Ghost<nat>,
    bodies_decrypted: Ghost<nat>,
    raw_wire: Ghost<Seq<u8>>,
    done_wire: Ghost<Seq<u8>>,
    done_plain: Ghost<Seq<u8>>,
    out_plain: Ghost<Seq<u8>>,
    frame_nonce: Ghost<Seq<u8>>,
}

impl ReaderBuffer {
    /// The buffer's current mode.
    pub closed spec fn mode_spec(&self) -> ReaderBufferMode {
        self.mode
    }

    /// How many meaningful bytes the buffer holds.
    pub closed spec fn len_spec(&self) -> int {
        self.length as int
    }

    /// The position bytes are appended at, or drained from.
    pub closed spec fn offset_spec(&self) -> int {
        self.offset as int
    }

    /// The decrypted header of the current frame, if one has been decrypted.
    pub closed spec fn header_spec(&self) -> Option<PlainHeader> {
        self.header
    }

    /// The meaningful bytes: everything at or beyond `len_spec()` is stale.
    pub closed spec fn data(&self) -> Seq<u8> {
        self.storage@.subrange(0, self.length as int)
    }

    /// How many headers have been decrypted since creation.
    pub closed spec fn headers_decrypted(&self) -> nat {
        self.headers_decrypted@
    }

    /// How many bodies have been decrypted since creation.
    pub closed spec fn bodies_decrypted(&self) -> nat {
        self.bodies_decrypted@
    }

    /// The wire bytes, as fed, that the buffer currently holds (the buffer
    /// itself holds them partly decrypted in place).
    pub closed spec fn raw_wire(&self) -> Seq<u8> {
        self.raw_wire@
    }

    /// The wire bytes of the frames already decrypted and fully delivered.
    pub closed spec fn done_wire(&self) -> Seq<u8> {
        self.done_wire@
    }

    /// The plaintext of the frames already fully delivered.
    pub closed spec fn done_plain(&self) -> Seq<u8> {
        self.done_plain@
    }

    /// Every plaintext byte delivered so far, in order.
    pub closed spec fn delivered(&self) -> Seq<u8> {
        self.out_plain@
    }

    /// All wire bytes ever accepted, in order.
    pub open spec fn fed(&self) -> Seq<u8> {
        self.done_wire() + self.raw_wire()
    }

    /// The nonce under which the current frame's header opens (meaningful
    /// once that header has been decrypted).
    pub closed spec fn frame_nonce(&self) -> Seq<u8> {
        self.frame_nonce@
    }

    /// The nonce under which the next header at the front of `raw_wire()`
    /// opens: the running nonce while no header is pending, the recorded one
    /// once the current frame's header has been decrypted.
    pub open spec fn frame_base(&self, nonce: Seq<u8>) -> Seq<u8> {
        if self.mode_spec() is WaitingForHeader {
            nonce
        } else {
            self.frame_nonce()
        }
    }

    /// The machine's history decodes the stream: the frames delivered so far
    /// are exactly what the stream model yields for `done_wire()`, the
    /// running nonce stays in lockstep, and the buffer holds the current
    /// frame's bytes with exactly the decryptions its mode announces applied
    /// in place.  `nonce` is the running nonce's current value; `init` is any
    /// starting nonce from which `done_wire()` decodes.
    pub open spec fn decodes(&self, nonce: Seq<u8>, init: Seq<u8>, key: Seq<u8>) -> bool {
        let base = self.frame_base(nonce);
        let raw = self.raw_wire();
        &&& (forall|rest: Seq<u8>|
            #[trigger] stream_plain(self.done_wire() + rest, init, key) == prepend_plain(
                self.done_plain(),
                stream_plain(rest, base, key),
            ))
        &&& match self.mode_spec() {
            ReaderBufferMode::WaitingForHeader => {
                &&& self.data() == raw
                &&& self.delivered() == self.done_plain()
            },
            ReaderBufferMode::WaitingForPacket | ReaderBufferMode::ReadyToDecrypt => {
                &&& header_open(raw, base, key) matches Some(hp)
                &&& nonce == succ_be(base)
                &&& (self.header_spec() matches Some(h) && h.len_spec() == header_len_of(hp)
                    && h.mac_spec() == header_mac_of(hp))
                &&& self.data() == raw.subrange(0, MAC_SIZE as int) + hp + raw.subrange(
                    CYPHER_HEADER_SIZE as int,
                    raw.len() as int,
                )
                &&& self.delivered() == self.done_plain()
            },
            ReaderBufferMode::HoldsPlaintextPacket => {
                &&& header_open(raw, base, key) matches Some(hp)
                &&& (self.header_spec() matches Some(h) && h.len_spec() == header_len_of(hp)
                    && h.mac_spec() == header_mac_of(hp))
                &&& secretbox_open(
                    raw.subrange(CYPHER_HEADER_SIZE as int, CYPHER_HEADER_SIZE + header_len_of(hp)),
                    header_mac_of(hp),
                    succ_be(base),
                    key,
                ) matches Some(plain)
                &&& plain.len() == header_len_of(hp)
                &&& nonce == succ_be(succ_be(base))
                &&& self.data() == raw.subrange(0, MAC_SIZE as int) + hp + plain + raw.subrange(
                    CYPHER_HEADER_SIZE + header_len_of(hp),
                    raw.len() as int,
                )
                &&& self.delivered() == self.done_plain() + plain.subrange(
                    0,
                    self.offset_spec() - CYPHER_HEADER_SIZE,
                )
            },
        }
    }

    /// Capacity invariant of the backing storage.
    pub closed spec fn storage_wf(&self) -> bool {
        self.storage@.len() == READ_BUFFER_SIZE
    }

    /// Structural soundness: cursors stay ordered and within capacity, the
    /// decrypted header exists exactly in the modes that demand it, its
    /// announced length is in bounds, and the nonce accounting matches the
    /// mode (a frame's header is decrypted first, its body second).
    pub open spec fn wf(&self) -> bool {
        &&& self.storage_wf()
        &&& 0 <= self.offset_spec() <= self.len_spec() <= READ_BUFFER_SIZE
        &&& self.data().len() == self.len_spec()
        &&& self.raw_wire().len() == self.len_spec()
        &&& match self.mode_spec() {
            ReaderBufferMode::WaitingForHeader => {
                &&& self.header_spec() is None
                &&& self.offset_spec() == self.len_spec()
                &&& self.headers_decrypted() == self.bodies_decrypted()
            },
            ReaderBufferMode::WaitingForPacket => {
                &&& self.header_spec() matches Some(h)
                &&& h.wf()
                &&& self.offset_spec() == self.len_spec()
                &&& CYPHER_HEADER_SIZE <= self.len_spec()
                &&& self.len_spec() < CYPHER_HEADER_SIZE + h.len_spec()
                &&& self.headers_decrypted() == self.bodies_decrypted() + 1
            },
            ReaderBufferMode::ReadyToDecrypt => {
                &&& self.header_spec() matches Some(h)
                &&& h.wf()
                &&& self.offset_spec() == CYPHER_HEADER_SIZE
                &&& CYPHER_HEADER_SIZE + h.len_spec() <= self.len_spec()
                &&& self.headers_decrypted() == self.bodies_decrypted() + 1
            },
            ReaderBufferMode::HoldsPlaintextPacket => {
                &&& self.header_spec() matches Some(h)
                &&& h.wf()
                &&& CYPHER_HEADER_SIZE <= self.offset_spec()
                &&& self.offset_spec() < CYPHER_HEADER_SIZE + h.len_spec()
                &&& CYPHER_HEADER_SIZE + h.len_spec() <= self.len_spec()
                &&& self.headers_decrypted() == self.bodies_decrypted()
            },
        }
    }

    /// A fresh, empty buffer, waiting for the first header.
    pub fn new() -> (r: ReaderBuffer)
        ensures
            r.wf(),
            r.mode_spec() is WaitingForHeader,
            r.len_spec() == 0,
            r.data() == Seq::<u8>::empty(),
            r.headers_decrypted() == 0,
            r.bodies_decrypted() == 0,
            r.raw_wire() == Seq::<u8>::empty(),
            r.done_wire() == Seq::<u8>::empty(),
            r.done_plain() == Seq::<u8>::empty(),
            r.delivered() == Seq::<u8>::empty(),
    {
        let mut storage: Vec<u8> = Vec::new();
        storage.resize(READ_BUFFER_SIZE, 0u8);
        let r = ReaderBuffer {
            storage,
            offset: 0,
            length: 0,
            header: None,
            mode: ReaderBufferMode::WaitingForHeader,
            headers_decrypted: Ghost(0),
            bodies_decrypted: Ghost(0),
            raw_wire: Ghost(Seq::empty()),
            done_wire: Ghost(Seq::empty()),
            done_plain: Ghost(Seq::empty()),
            out_plain: Ghost(Seq::empty()),
            frame_nonce: Ghost(Seq::empty()),
        };
        proof {
            assert(r.data() =~= Seq::<u8>::empty());
        }
        r
    }

    /// Whether a call to `read_to` can produce plaintext right now.
    pub fn is_readable(&self) -> (r: bool)
        ensures
            r == (self.mode_spec() is ReadyToDecrypt || self.mode_spec()
                is HoldsPlaintextPacket),
    {
        match self.mode {
            ReaderBufferMode::ReadyToDecrypt => true,
            ReaderBufferMode::HoldsPlaintextPacket => true,
            _ => false,
        }
    }

    /// How many more bytes the buffer can accept.
    pub fn space(&self) -> (r: usize)
        requires
            self.wf(),
        ensures
            r == READ_BUFFER_SIZE - self.len_spec(),
    {
        READ_BUFFER_SIZE - self.length
    }

    /// Whether progress needs more bytes from the source, as opposed to a
    /// decryption step on bytes already buffered.
    pub fn needs_input(&self) -> (r: bool)
        requires
            self.wf(),
        ensures
            r == ((self.mode_spec() is WaitingForHeader && self.len_spec() < CYPHER_HEADER_SIZE)
                || self.mode_spec() is WaitingForPacket),
    {
        match self.mode {
            ReaderBufferMode::WaitingForHeader => self.length < CYPHER_HEADER_SIZE,
            ReaderBufferMode::WaitingForPacket => true,
            _ => false,
        }
    }

    /// Classify the source's end of stream: it is clean exactly when no byte
    /// of a partial frame is pending, and a truncation otherwise.
    pub fn finish(&self) -> (r: Result<(), UnboxError>)
        requires
            self.wf(),
        ensures
            r is Ok <==> (self.mode_spec() is WaitingForHeader && self.len_spec() == 0),
            r matches Err(e) ==> e is TruncatedStream,
    {
        if self.length == 0 && self.mode == ReaderBufferMode::WaitingForHeader {
            Ok(())
        } else {
            Err(UnboxError::TruncatedStream)
        }
    }

    /// Append freshly read bytes and advance the state machine.  The first
    /// time a full encrypted header is buffered it is decrypted in place —
    /// exactly once, costing one nonce step — and the length it announces is
    /// checked against `MAX_PACKET_USIZE` unconditionally; the mode then
    /// records whether the full encrypted body is already buffered as well.
    pub fn fill(&mut self, input: &Vec<u8>, key: &Key, nonce: &mut Nonce) -> (r: Result<
        (),
        UnboxError,
    >)
        requires
            old(self).wf(),
            old(self).mode_spec() is WaitingForHeader || old(self).mode_spec()
                is WaitingForPacket,
            input@.len() <= READ_BUFFER_SIZE - old(self).len_spec(),
            key.wf(),
            old(nonce).wf(),
        ensures
            final(nonce).wf(),
            final(nonce).initial() == old(nonce).initial(),
            ({
                let comb = old(self).data() + input@;
                let attempt = old(self).mode_spec() is WaitingForHeader && comb.len()
                    >= CYPHER_HEADER_SIZE;
                let opened = header_open(comb, old(nonce)@, key@);
                &&& ((r matches Err(e) && e is AuthenticationFailure) <==> (attempt && opened
                    is None))
                &&& ((r matches Err(e) && e is OversizedPacket) <==> (attempt && (opened matches Some(hp)
                    && header_len_of(hp) > MAX_PACKET_USIZE)))
                &&& !(r matches Err(e) && e is TruncatedStream)
                &&& ((r matches Err(e) && e is AuthenticationFailure) ==> *final(nonce) == *old(nonce))
                &&& ((r matches Err(e) && e is OversizedPacket) ==> final(nonce)@ == succ_be(
                    old(nonce)@,
                ) && final(nonce).steps() == old(nonce).steps() + 1)
                &&& ((attempt && r is Ok) ==> ({
                    let hp = opened.unwrap();
                    &&& final(nonce)@ == succ_be(old(nonce)@)
                    &&& final(nonce).steps() == old(nonce).steps() + 1
                    &&& final(self).headers_decrypted() == old(self).headers_decrypted() + 1
                    &&& final(self).bodies_decrypted() == old(self).bodies_decrypted()
                    &&& final(self).wf()
                    &&& final(self).len_spec() == comb.len()
                    &&& final(self).data() == comb.subrange(0, MAC_SIZE as int) + hp
                        + comb.subrange(CYPHER_HEADER_SIZE as int, comb.len() as int)
                    &&& (final(self).header_spec() matches Some(h) && h.len_spec()
                        == header_len_of(hp) && h.mac_spec() == header_mac_of(hp))
                    &&& (comb.len() >= CYPHER_HEADER_SIZE + header_len_of(hp) ==> final(self).mode_spec() is ReadyToDecrypt)
                    &&& (comb.len() < CYPHER_HEADER_SIZE + header_len_of(hp) ==> final(self).mode_spec() is WaitingForPacket)
                }))
                &&& ((!attempt && r is Ok) ==> ({
                    &&& *final(nonce) == *old(nonce)
                    &&& final(self).wf()
                    &&& final(self).headers_decrypted() == old(self).headers_decrypted()
                    &&& final(self).bodies_decrypted() == old(self).bodies_decrypted()
                    &&& final(self).len_spec() == comb.len()
                    &&& final(self).data() == comb
                    &&& final(self).header_spec() == old(self).header_spec()
                    &&& (old(self).mode_spec() is WaitingForHeader ==> final(self).mode_spec()
                        is WaitingForHeader)
                    &&& (old(self).mode_spec() is WaitingForPacket ==> ({
                        let h = old(self).header_spec().unwrap();
                        &&& (comb.len() >= CYPHER_HEADER_SIZE + h.len_spec() ==> final(self).mode_spec() is ReadyToDecrypt)
                        &&& (comb.len() < CYPHER_HEADER_SIZE + h.len_spec() ==> final(self).mode_spec() is WaitingForPacket)
                    }))
                }))
            }),
            r is Ok ==> {
                &&& final(self).done_wire() == old(self).done_wire()
                &&& final(self).done_plain() == old(self).done_plain()
                &&& final(self).delivered() == old(self).delivered()
                &&& final(self).raw_wire() == old(self).raw_wire() + input@
            },
            r is Ok ==> forall|init: Seq<u8>|
                #[trigger] old(self).decodes(old(nonce)@, init, key@) ==> final(self).decodes(
                    final(nonce)@,
                    init,
                    key@,
                ),
    {
        let ghost comb = old(self).data() + input@;
        crate::bytes::copy_into(&mut self.storage, self.length, input);
        self.length = self.length + input.len();
        self.offset = self.length;
        proof {
            assert(self.data() =~= comb);
            self.raw_wire@ = self.raw_wire@ + input@;
        }
        match self.mode {
            ReaderBufferMode::WaitingForHeader => {
                if self.length < CYPHER_HEADER_SIZE {
                    proof {
                        assert forall|init: Seq<u8>|
                            #[trigger] old(self).decodes(old(nonce)@, init, key@) implies self
                            .decodes(nonce@, init, key@) by {
                            assert(self.raw_wire() =~= comb);
                            assert forall|rest: Seq<u8>|
                                #[trigger] stream_plain(self.done_wire() + rest, init, key@)
                                    == prepend_plain(
                                    self.done_plain(),
                                    stream_plain(rest, self.frame_base(nonce@), key@),
                                ) by {
                                assert(stream_plain(old(self).done_wire() + rest, init, key@)
                                    == prepend_plain(
                                    old(self).done_plain(),
                                    stream_plain(rest, old(self).frame_base(old(nonce)@), key@),
                                ));
                            }
                        }
                    }
                    return Ok(());
                }
                let tag = crate::bytes::copy_range(&self.storage, 0, MAC_SIZE);
                proof {
                    assert(tag@ =~= header_tag(comb));
                    assert(self.storage@.subrange(
                        MAC_SIZE as int,
                        CYPHER_HEADER_SIZE as int,
                    ) =~= header_cipher(comb));
                }
                let ok = crate::crypto::open_region_step(
                    &mut self.storage,
                    MAC_SIZE,
                    PLAIN_HEADER_SIZE,
                    &tag,
                    key,
                    nonce,
                );
                if !ok {
                    return Err(UnboxError::AuthenticationFailure);
                }
                proof {
                    self.headers_decrypted@ = self.headers_decrypted@ + 1;
                    self.frame_nonce@ = old(nonce)@;
                }
                let ghost hp = header_open(comb, old(nonce)@, key@).unwrap();
                proof {
                    assert(self.storage@.subrange(MAC_SIZE as int, CYPHER_HEADER_SIZE as int)
                        == hp);
                    assert(self.storage@[MAC_SIZE as int] == hp[0]);
                    assert(self.storage@[MAC_SIZE + 1] == hp[1]);
                }
                let hi = self.storage[MAC_SIZE];
                let lo = self.storage[MAC_SIZE + 1];
                let plen: usize = (hi as usize) * 256 + (lo as usize);
                if plen > MAX_PACKET_USIZE {
                    return Err(UnboxError::OversizedPacket);
                }
                let mac = crate::bytes::copy_range(&self.storage, MAC_SIZE + 2, MAC_SIZE);
                proof {
                    assert(mac@ =~= header_mac_of(hp));
                }
                let h = PlainHeader::assemble(plen as u16, mac);
                self.header = Some(h);
                if self.length >= CYPHER_HEADER_SIZE + plen {
                    self.mode = ReaderBufferMode::ReadyToDecrypt;
                    self.offset = CYPHER_HEADER_SIZE;
                } else {
                    self.mode = ReaderBufferMode::WaitingForPacket;
                }
                proof {
                    assert(self.data() =~= comb.subrange(0, MAC_SIZE as int) + hp + comb.subrange(
                        CYPHER_HEADER_SIZE as int,
                        comb.len() as int,
                    ));
                    assert forall|init: Seq<u8>|
                        #[trigger] old(self).decodes(old(nonce)@, init, key@) implies self.decodes(
                        nonce@,
                        init,
                        key@,
                    ) by {
                        assert(self.raw_wire() =~= comb);
                        assert forall|rest: Seq<u8>|
                            #[trigger] stream_plain(self.done_wire() + rest, init, key@)
                                == prepend_plain(
                                self.done_plain(),
                                stream_plain(rest, self.frame_base(nonce@), key@),
                            ) by {
                            assert(stream_plain(old(self).done_wire() + rest, init, key@)
                                == prepend_plain(
                                old(self).done_plain(),
                                stream_plain(rest, old(self).frame_base(old(nonce)@), key@),
                            ));
                        }
                    }
                }
                Ok(())
            },
            ReaderBufferMode::WaitingForPacket => {
                let plen = match &self.header {
                    Some(h) => h.get_packet_len() as usize,
                    None => 0,
                };
                if self.length >= CYPHER_HEADER_SIZE + plen {
                    self.mode = ReaderBufferMode::ReadyToDecrypt;
                    self.offset = CYPHER_HEADER_SIZE;
                }
                proof {
                    assert forall|init: Seq<u8>|
                        #[trigger] old(self).decodes(old(nonce)@, init, key@) implies self.decodes(
                        nonce@,
                        init,
                        key@,
                    ) by {
                        let raw0 = old(self).raw_wire();
                        let base = old(self).frame_base(old(nonce)@);
                        let hp = header_open(raw0, base, key@).unwrap();
                        assert(raw0.len() == old(self).len_spec());
                        assert(16 + hp.len() + (raw0.len() - CYPHER_HEADER_SIZE)
                            == old(self).data().len());
                        assert(hp.len() == PLAIN_HEADER_SIZE);
                        assert(header_tag(self.raw_wire()) =~= header_tag(raw0));
                        assert(header_cipher(self.raw_wire()) =~= header_cipher(raw0));
                        assert(self.data() =~= self.raw_wire().subrange(0, MAC_SIZE as int) + hp
                            + self.raw_wire().subrange(
                            CYPHER_HEADER_SIZE as int,
                            self.raw_wire().len() as int,
                        ));
                        assert forall|rest: Seq<u8>|
                            #[trigger] stream_plain(self.done_wire() + rest, init, key@)
                                == prepend_plain(
                                self.done_plain(),
                                stream_plain(rest, self.frame_base(nonce@), key@),
                            ) by {
                            assert(stream_plain(old(self).done_wire() + rest, init, key@)
                                == prepend_plain(
                                old(self).done_plain(),
                                stream_plain(rest, old(self).frame_base(old(nonce)@), key@),
                            ));
                        }
                    }
                }
                Ok(())
            },
            _ => {
                proof {
                    assert(false);
                }
                Ok(())
            },
        }
    }

    /// Produce up to `max` plaintext bytes of the current frame.  Coming from
    /// `ReadyToDecrypt` this first decrypts the body in place, verifying its
    /// tag against the one the header carried (one nonce step); coming from
    /// `HoldsPlaintextPacket` it resumes copying with no decryption work.
    /// Once the frame's last plaintext byte has been delivered, the bytes of
    /// the next frame are compacted to the front of the buffer.
    #[verifier::rlimit(100)]
    pub fn read_to(&mut self, max: usize, key: &Key, nonce: &mut Nonce) -> (r: Result<
        Vec<u8>,
        UnboxError,
    >)
        requires
            old(self).wf(),
            old(self).mode_spec() is ReadyToDecrypt || old(self).mode_spec()
                is HoldsPlaintextPacket,
            key.wf(),
            old(nonce).wf(),
        ensures
            final(nonce).wf(),
            final(nonce).initial() == old(nonce).initial(),
            final(self).wf(),
            ({
                let h = old(self).header_spec().unwrap();
                let opened = body_open(old(self).data(), h, old(nonce)@, key@);
                &&& (r is Err <==> (old(self).mode_spec() is ReadyToDecrypt && opened is None))
                &&& (r matches Err(e) ==> {
                    &&& e is AuthenticationFailure
                    &&& *final(nonce) == *old(nonce)
                    &&& final(self).data() == old(self).data()
                    &&& final(self).mode_spec() == old(self).mode_spec()
                    &&& final(self).len_spec() == old(self).len_spec()
                    &&& final(self).offset_spec() == old(self).offset_spec()
                    &&& final(self).header_spec() == old(self).header_spec()
                    &&& final(self).headers_decrypted() == old(self).headers_decrypted()
                    &&& final(self).bodies_decrypted() == old(self).bodies_decrypted()
                })
                &&& (r is Ok ==> ({
                    let plain = if old(self).mode_spec() is ReadyToDecrypt {
                        opened.unwrap()
                    } else {
                        old(self).data().subrange(
                            CYPHER_HEADER_SIZE as int,
                            CYPHER_HEADER_SIZE + h.len_spec(),
                        )
                    };
                    let pos0 = if old(self).mode_spec() is ReadyToDecrypt {
                        0int
                    } else {
                        old(self).offset_spec() - CYPHER_HEADER_SIZE
                    };
                    let written = if max <= h.len_spec() - pos0 {
                        max as int
                    } else {
                        h.len_spec() - pos0
                    };
                    &&& plain.len() == h.len_spec()
                    &&& r.unwrap()@ == plain.subrange(pos0, pos0 + written)
                    &&& (old(self).mode_spec() is ReadyToDecrypt ==> {
                        &&& final(nonce)@ == succ_be(old(nonce)@)
                        &&& final(nonce).steps() == old(nonce).steps() + 1
                        &&& final(self).bodies_decrypted() == old(self).bodies_decrypted() + 1
                    })
                    &&& (old(self).mode_spec() is HoldsPlaintextPacket ==> *final(nonce) == *old(
                        nonce,
                    ) && final(self).bodies_decrypted() == old(self).bodies_decrypted())
                    &&& final(self).headers_decrypted() == old(self).headers_decrypted()
                    &&& (pos0 + written < h.len_spec() ==> {
                        &&& final(self).mode_spec() is HoldsPlaintextPacket
                        &&& final(self).offset_spec() == CYPHER_HEADER_SIZE + pos0 + written
                        &&& final(self).len_spec() == old(self).len_spec()
                        &&& final(self).header_spec() == old(self).header_spec()
                        &&& final(self).data() == old(self).data().subrange(
                            0,
                            CYPHER_HEADER_SIZE as int,
                        ) + plain + old(self).data().subrange(
                            CYPHER_HEADER_SIZE + h.len_spec(),
                            old(self).len_spec(),
                        )
                    })
                    &&& (pos0 + written == h.len_spec() ==> {
                        &&& final(self).mode_spec() is WaitingForHeader
                        &&& final(self).header_spec() is None
                        &&& final(self).len_spec() == old(self).len_spec() - (CYPHER_HEADER_SIZE
                            + h.len_spec())
                        &&& final(self).offset_spec() == final(self).len_spec()
                        &&& final(self).data() == old(self).data().subrange(
                            CYPHER_HEADER_SIZE + h.len_spec(),
                            old(self).len_spec(),
                        )
                    })
                }))
            }),
            r is Ok ==> final(self).fed() == old(self).fed() && final(self).delivered() == old(
                self,
            ).delivered() + r.unwrap()@,
            r is Ok ==> forall|init: Seq<u8>|
                #[trigger] old(self).decodes(old(nonce)@, init, key@) ==> final(self).decodes(
                    final(nonce)@,
                    init,
                    key@,
                ),
    {
        let ghost orig_data = old(self).data();
        let plen = match &self.header {
            Some(h) => h.get_packet_len() as usize,
            None => 0,
        };
        if self.mode == ReaderBufferMode::ReadyToDecrypt {
            let ok: bool;
            match &self.header {
                Some(h) => {
                    proof {
                        assert(h.wf());
                    }
                    ok = crate::crypto::open_region_step(
                        &mut self.storage,
                        CYPHER_HEADER_SIZE,
                        plen,
                        h.mac_ref(),
                        key,
                        nonce,
                    );
                },
                None => {
                    proof {
                        assert(false);
                    }
                    ok = false;
                },
            }
            proof {
                assert(self.storage@.subrange(
                    CYPHER_HEADER_SIZE as int,
                    CYPHER_HEADER_SIZE + plen,
                ) == orig_data.subrange(CYPHER_HEADER_SIZE as int, CYPHER_HEADER_SIZE + plen)
                    || ok) by {
                    if !ok {
                        assert(self.storage@ == old(self).storage@);
                    }
                }
            }
            if !ok {
                proof {
                    assert(orig_data.subrange(
                        CYPHER_HEADER_SIZE as int,
                        CYPHER_HEADER_SIZE + plen,
                    ) =~= old(self).storage@.subrange(
                        CYPHER_HEADER_SIZE as int,
                        CYPHER_HEADER_SIZE + plen,
                    ));
                }
                return Err(UnboxError::AuthenticationFailure);
            }
            proof {
                self.bodies_decrypted@ = self.bodies_decrypted@ + 1;
                assert(orig_data.subrange(
                    CYPHER_HEADER_SIZE as int,
                    CYPHER_HEADER_SIZE + plen,
                ) =~= old(self).storage@.subrange(
                    CYPHER_HEADER_SIZE as int,
                    CYPHER_HEADER_SIZE + plen,
                ));
            }
            self.mode = ReaderBufferMode::HoldsPlaintextPacket;
        }
        let ghost plain = self.storage@.subrange(
            CYPHER_HEADER_SIZE as int,
            CYPHER_HEADER_SIZE + plen,
        );
        let end = CYPHER_HEADER_SIZE + plen;
        let avail = end - self.offset;
        let n = if max < avail {
            max
        } else {
            avail
        };
        let out = crate::bytes::copy_range(&self.storage, self.offset, n);
        proof {
            assert(out@ =~= plain.subrange(
                self.offset - CYPHER_HEADER_SIZE,
                self.offset - CYPHER_HEADER_SIZE + n,
            ));
            self.out_plain@ = self.out_plain@ + out@;
        }
        self.offset = self.offset + n;
        if self.offset == end {
            let leftover = self.length - end;
            crate::bytes::compact_front(&mut self.storage, end, leftover);
            self.offset = leftover;
            self.length = leftover;
            self.header = None;
            self.mode = ReaderBufferMode::WaitingForHeader;
            proof {
                assert(self.data() =~= orig_data.subrange(end as int, orig_data.len() as int));
                let f = self.raw_wire@.subrange(0, end as int);
                self.done_wire@ = self.done_wire@ + f;
                self.done_plain@ = self.done_plain@ + plain;
                self.raw_wire@ = self.raw_wire@.subrange(end as int, self.raw_wire@.len() as int);
                assert(old(self).done_wire() + old(self).raw_wire() =~= self.done_wire@
                    + self.raw_wire@);
            }
        } else {
            proof {
                assert(self.data() =~= orig_data.subrange(0, CYPHER_HEADER_SIZE as int) + plain
                    + orig_data.subrange(end as int, orig_data.len() as int));
            }
        }
        proof {
            assert forall|init: Seq<u8>|
                #[trigger] old(self).decodes(old(nonce)@, init, key@) implies self.decodes(
                nonce@,
                init,
                key@,
            ) by {
                let raw0 = old(self).raw_wire();
                let base = old(self).frame_base(old(nonce)@);
                let hp = header_open(raw0, base, key@).unwrap();
                let hh = old(self).header_spec().unwrap();
                let endi = CYPHER_HEADER_SIZE + header_len_of(hp);
                assert(raw0.len() == old(self).len_spec());
                if old(self).mode_spec() is HoldsPlaintextPacket {
                    let plain_m = secretbox_open(
                        raw0.subrange(CYPHER_HEADER_SIZE as int, endi),
                        header_mac_of(hp),
                        succ_be(base),
                        key@,
                    ).unwrap();
                    assert(16 + hp.len() + plain_m.len() + (raw0.len() - endi) == old(
                        self,
                    ).data().len());
                    assert(hp.len() == PLAIN_HEADER_SIZE);
                    assert(plain_m =~= old(self).data().subrange(CYPHER_HEADER_SIZE as int, endi));
                    assert(plain =~= plain_m);
                } else {
                    assert(16 + hp.len() + (raw0.len() - CYPHER_HEADER_SIZE) == old(
                        self,
                    ).data().len());
                    assert(hp.len() == PLAIN_HEADER_SIZE);
                    assert(old(self).storage@.subrange(CYPHER_HEADER_SIZE as int, endi)
                        =~= old(self).data().subrange(CYPHER_HEADER_SIZE as int, endi));
                    assert(old(self).data().subrange(CYPHER_HEADER_SIZE as int, endi)
                        =~= raw0.subrange(CYPHER_HEADER_SIZE as int, endi));
                }
                assert(secretbox_open(
                    raw0.subrange(CYPHER_HEADER_SIZE as int, endi),
                    header_mac_of(hp),
                    succ_be(base),
                    key@,
                ) == Some(plain));
                assert(plain.len() == header_len_of(hp));
                assert(orig_data.subrange(0, MAC_SIZE as int) =~= raw0.subrange(
                    0,
                    MAC_SIZE as int,
                ));
                assert(orig_data.subrange(endi, orig_data.len() as int) =~= raw0.subrange(
                    endi,
                    raw0.len() as int,
                ));
                if self.mode_spec() is HoldsPlaintextPacket {
                    assert(self.data() =~= raw0.subrange(0, MAC_SIZE as int) + hp + plain
                        + raw0.subrange(endi, raw0.len() as int));
                    assert(self.delivered() =~= self.done_plain() + plain.subrange(
                        0,
                        self.offset_spec() - CYPHER_HEADER_SIZE,
                    ));
                    assert forall|rest: Seq<u8>|
                        #[trigger] stream_plain(self.done_wire() + rest, init, key@)
                            == prepend_plain(
                            self.done_plain(),
                            stream_plain(rest, self.frame_base(nonce@), key@),
                        ) by {
                        assert(stream_plain(old(self).done_wire() + rest, init, key@)
                            == prepend_plain(
                            old(self).done_plain(),
                            stream_plain(rest, old(self).frame_base(old(nonce)@), key@),
                        ));
                    }
                } else {
                    let f = raw0.subrange(0, endi);
                    assert(self.raw_wire() =~= raw0.subrange(endi, raw0.len() as int));
                    assert(self.data() =~= self.raw_wire());
                    assert(self.delivered() =~= self.done_plain());
                    assert(self.frame_base(nonce@) == succ_be(succ_be(base)));
                    assert forall|rest: Seq<u8>|
                        #[trigger] stream_plain(self.done_wire() + rest, init, key@)
                            == prepend_plain(
                            self.done_plain(),
                            stream_plain(rest, self.frame_base(nonce@), key@),
                        ) by {
                        let frest = f + rest;
                        assert(self.done_wire() + rest =~= old(self).done_wire() + frest);
                        assert(stream_plain(old(self).done_wire() + frest, init, key@)
                            == prepend_plain(
                            old(self).done_plain(),
                            stream_plain(frest, base, key@),
                        ));
                        assert(header_tag(frest) =~= header_tag(raw0));
                        assert(header_cipher(frest) =~= header_cipher(raw0));
                        assert(header_open(frest, base, key@) == header_open(raw0, base, key@));
                        assert(frest.subrange(CYPHER_HEADER_SIZE as int, endi) =~= raw0.subrange(
                            CYPHER_HEADER_SIZE as int,
                            endi,
                        ));
                        assert(frest.subrange(endi, frest.len() as int) =~= rest);
                        if stream_plain(rest, succ_be(succ_be(base)), key@) is Some {
                            let q = stream_plain(rest, succ_be(succ_be(base)), key@).unwrap();
                            assert(stream_plain(frest, base, key@) == Some(plain + q));
                            assert(old(self).done_plain() + (plain + q) =~= self.done_plain() + q);
                        } else {
                            assert(stream_plain(frest, base, key@) == Option::<Seq<u8>>::None);
                        }
                    }
                }
            }
        }
        Ok(out)
    }
}

/// A freshly created buffer decodes the (empty) stream it has consumed so
/// far, for the running nonce's current value taken as the starting nonce.
pub proof fn lemma_fresh_decodes(b: &ReaderBuffer, nonce: Seq<u8>, key: Seq<u8>)
    requires
        b.mode_spec() is WaitingForHeader,
        b.len_spec() == 0,
        b.data() == Seq::<u8>::empty(),
        b.raw_wire() == Seq::<u8>::empty(),
        b.done_wire() == Seq::<u8>::empty(),
        b.done_plain() == Seq::<u8>::empty(),
        b.delivered() == Seq::<u8>::empty(),
    ensures
        b.decodes(nonce, nonce, key),
{
    assert forall|rest: Seq<u8>|
        #[trigger] stream_plain(b.done_wire() + rest, nonce, key) == prepend_plain(
            b.done_plain(),
            stream_plain(rest, nonce, key),
        ) by {
        assert(b.done_wire() + rest =~= rest);
        match stream_plain(rest, nonce, key) {
            Option::Some(q) => {
                assert(b.done_plain() + q =~= q);
            },
            Option::None => {},
        }
    }
}

/// Round trip: once the source is cleanly exhausted — every fed byte
/// consumed, no partial frame pending — a machine whose history decodes the
/// stream has delivered exactly the plaintext that the stream model assigns
/// to everything it was fed, whatever chunking the bytes arrived in and
/// however small each drain request was.
pub proof fn lemma_round_trip(b: &ReaderBuffer, nonce: Seq<u8>, init: Seq<u8>, key: Seq<u8>)
    requires
        b.wf(),
        b.decodes(nonce, init, key),
        b.mode_spec() is WaitingForHeader,
        b.len_spec() == 0,
    ensures
        stream_plain(b.fed(), init, key) == Some(b.delivered()),
{
    assert(stream_plain(b.done_wire() + Seq::<u8>::empty(), init, key) == prepend_plain(
        b.done_plain(),
        stream_plain(Seq::<u8>::empty(), b.frame_base(nonce), key),
    ));
    assert(stream_plain(Seq::<u8>::empty(), b.frame_base(nonce), key) == Some(Seq::<u8>::empty()));
    assert(b.done_wire() + Seq::<u8>::empty() =~= b.done_wire());
    assert(b.fed() =~= b.done_wire());
    assert(b.done_plain() + Seq::<u8>::empty() =~= b.done_plain());
}

/// Tamper safety: whatever bytes may still arrive, every plaintext byte
/// delivered so far already stands, at its position, in the plaintext of any
/// valid whole stream that begins with exactly the bytes consumed so far.
/// Nothing that was handed out ever came from anywhere but verified frames,
/// so a tampered frame can only cut the stream short, never corrupt what was
/// delivered before it.
pub proof fn lemma_delivered_is_prefix(
    b: &ReaderBuffer,
    nonce: Seq<u8>,
    init: Seq<u8>,
    key: Seq<u8>,
    future: Seq<u8>,
)
    requires
        b.wf(),
        b.decodes(nonce, init, key),
        stream_plain(b.fed() + future, init, key) is Some,
    ensures
        ({
            let total = stream_plain(b.fed() + future, init, key).unwrap();
            &&& b.delivered().len() <= total.len()
            &&& total.subrange(0, b.delivered().len() as int) == b.delivered()
        }),
{
    let base = b.frame_base(nonce);
    let rest = b.raw_wire() + future;
    assert(b.fed() + future =~= b.done_wire() + rest);
    assert(stream_plain(b.done_wire() + rest, init, key) == prepend_plain(
        b.done_plain(),
        stream_plain(rest, base, key),
    ));
    let q = stream_plain(rest, base, key).unwrap();
    let total = stream_plain(b.fed() + future, init, key).unwrap();
    assert(total == b.done_plain() + q);
    if b.mode_spec() is HoldsPlaintextPacket {
        let raw = b.raw_wire();
        let hp = header_open(raw, base, key).unwrap();
        let endi = CYPHER_HEADER_SIZE + header_len_of(hp);
        let plain = secretbox_open(
            raw.subrange(CYPHER_HEADER_SIZE as int, endi),
            header_mac_of(hp),
            succ_be(base),
            key,
        ).unwrap();
        assert(16 + hp.len() + plain.len() + (raw.len() - endi) == b.data().len());
        assert(hp.len() == PLAIN_HEADER_SIZE);
        assert(header_tag(rest) =~= header_tag(raw));
        assert(header_cipher(rest) =~= header_cipher(raw));
        assert(header_open(rest, base, key) == header_open(raw, base, key));
        assert(rest.subrange(CYPHER_HEADER_SIZE as int, endi) =~= raw.subrange(
            CYPHER_HEADER_SIZE as int,
            endi,
        ));
        assert(q == plain + stream_plain(
            rest.subrange(endi, rest.len() as int),
            succ_be(succ_be(base)),
            key,
        ).unwrap());
        assert(total.subrange(0, b.delivered().len() as int) =~= b.delivered());
    } else {
        assert(b.delivered() == b.done_plain());
        assert(total.subrange(0, b.delivered().len() as int) =~= b.delivered());
    }
}

/// Nonce lockstep: a nonce that has taken one step per decryption performed
/// by a buffer stands, once `m` frames' bodies have been decrypted, exactly
/// `2m` big-endian steps past its initial value — one for each frame's
/// header and one for its body, in that order — plus one more step while the
/// current frame's header alone has been decrypted.
pub proof fn lemma_nonce_lockstep(buf: &ReaderBuffer, nonce: &Nonce)
    requires
        buf.wf(),
        nonce.wf(),
        nonce.steps() == buf.headers_decrypted() + buf.bodies_decrypted(),
    ensures
        nonce@ == crate::bytes::succ_be_n(
            nonce.initial(),
            2 * buf.bodies_decrypted() + (if buf.mode_spec() is WaitingForPacket
                || buf.mode_spec() is ReadyToDecrypt {
                1nat
            } else {
                0nat
            }),
        ),
{
    crate::crypto::lemma_nonce_value(nonce);
}

/// Small-buffer resumption: draining a frame's plaintext across two
/// consecutive requests — each of which `read_to` answers with a contiguous
/// range of the plaintext, resuming where the previous one stopped — yields
/// the same bytes as draining the whole range in one request.
pub proof fn lemma_drain_resumption(plain: Seq<u8>, a: int, b: int, c: int)
    requires
        0 <= a <= b <= c <= plain.len(),
    ensures
        plain.subrange(a, b) + plain.subrange(b, c) == plain.subrange(a, c),
{
    assert(plain.subrange(a, b) + plain.subrange(b, c) =~= plain.subrange(a, c));
}

/// Chunking independence: `fill` extends the buffered bytes by exactly the
/// bytes it was handed, so feeding `x` and then `y` accumulates the same
/// bytes as feeding `x + y` at once, however the stream was split.
pub proof fn lemma_accumulation_chunking(data: Seq<u8>, x: Seq<u8>, y: Seq<u8>)
    ensures
        (data + x) + y == data + (x + y),
{
    assert((data + x) + y =~= data + (x + y));
}

} // verus!
