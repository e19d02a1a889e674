//! The binary packet layer: a resumable deframer over a growing receive buffer,
//! and the framer that pads a payload to the cipher's block size.
use aws_lc_rs::error::Unspecified;
use aws_lc_rs::rand::{SecureRandom, SystemRandom};
use bytes::BytesMut;
use vstd::prelude::*;

use crate::wire::{append_bytes, be_u32_at, copy_range, lemma_u32_be_roundtrip, push_u32_be, read_u32_be, u32_be};

verus! {

#[verifier::external_type_specification]
#[verifier::external_body]
pub struct ExBytesMut(BytesMut);

#[verifier::external_type_specification]
#[verifier::external_body]
pub struct ExSystemRandom(SystemRandom);

#[verifier::external_type_specification]
#[verifier::external_body]
pub struct ExUnspecified(Unspecified);

/// The bytes that a receive buffer holds, in order.
pub uninterp spec fn buffer_bytes(b: BytesMut) -> Seq<u8>;

/// Relies on `BytesMut::len`: the number of bytes held.
#[verifier::external_body]
fn buffer_len(b: &BytesMut) -> (r: usize)
    ensures
        r == buffer_bytes(*b).len(),
{
    b.len()
}

/// Relies on indexing a `BytesMut` through its `Deref` to `[u8]`: the byte at `i`.
#[verifier::external_body]
fn buffer_byte(b: &BytesMut, i: usize) -> (r: u8)
    requires
        i < buffer_bytes(*b).len(),
    ensures
        r == buffer_bytes(*b)[i as int],
{
    b[i]
}

/// Relies on `BytesMut::reserve`: it only grows the capacity, the bytes held stay.
/// It panics when the new capacity would overflow `usize`.
#[verifier::external_body]
fn buffer_reserve(b: &mut BytesMut, additional: usize)
    requires
        buffer_bytes(*old(b)).len() + additional <= usize::MAX,
    ensures
        buffer_bytes(*final(b)) == buffer_bytes(*old(b)),
{
    b.reserve(additional)
}

/// Relies on `BytesMut::split_to`: the first `at` bytes move to the returned buffer,
/// the rest stay. It panics when `at` exceeds the length.
#[verifier::external_body]
fn buffer_split_to(b: &mut BytesMut, at: usize) -> (r: BytesMut)
    requires
        at <= buffer_bytes(*old(b)).len(),
    ensures
        buffer_bytes(r) == buffer_bytes(*old(b)).subrange(0, at as int),
        buffer_bytes(*final(b)) == buffer_bytes(*old(b)).subrange(
            at as int,
            buffer_bytes(*old(b)).len() as int,
        ),
{
    b.split_to(at)
}

/// Relies on `to_vec` through the `Deref` of `BytesMut` to `[u8]`: a copy of the bytes held.
#[verifier::external_body]
fn buffer_to_vec(b: &BytesMut) -> (r: Vec<u8>)
    ensures
        r@ == buffer_bytes(*b),
{
    b.to_vec()
}

/// Relies on aws-lc-rs's `SystemRandom::new`: a handle on the system's secure generator.
pub assume_specification[ SystemRandom::new ]() -> SystemRandom;

/// Relies on aws-lc-rs's `SecureRandom::fill` for `SystemRandom`: it overwrites the
/// bytes of `dest` in place, so the length stays; what it writes is random.
#[verifier::external_body]
fn fill_random(rng: &SystemRandom, dest: &mut Vec<u8>) -> (r: Result<(), Unspecified>)
    ensures
        final(dest)@.len() == old(dest)@.len(),
{
    rng.fill(dest.as_mut_slice())
}

/// One decoded binary packet: its payload and, when a MAC is negotiated, its tag.
#[derive(Debug, Clone, PartialEq, Eq)]
pub struct Packet {
    pub payload: Vec<u8>,
    pub mac: Option<Vec<u8>>,
}

impl View for Packet {
    type V = (Seq<u8>, Option<Seq<u8>>);

    open spec fn view(&self) -> (Seq<u8>, Option<Seq<u8>>) {
        (
            self.payload@,
            match self.mac {
                Some(m) => Some(m@),
                None => None,
            },
        )
    }
}

/// The ways framing or deframing fails. Each is fatal for the connection.
#[derive(Debug, Clone, Copy, PartialEq, Eq)]
pub enum CodecError {
    /// The frame would be larger than the maximum packet size.
    PacketTooLarge,
    /// The length field leaves no room for the padding-length byte.
    PacketTooSmall,
    /// The padding length, or the frame's own length, disagrees with the frame.
    MalformedPacket,
    /// The cipher's block size asks for more padding than one byte can count.
    PaddingTooLong,
    /// The secure random generator could not produce the padding.
    RandomUnavailable,
}

/// Where the deframer stands: waiting for a length prefix, or for a frame of known size.
#[derive(Debug, Clone, Copy, PartialEq, Eq)]
pub enum DecodeState {
    Head,
    Data(usize),
}

/// The framing state and configuration of one direction of a connection.
#[derive(Debug)]
pub struct PacketCodec {
    state: DecodeState,
    max_packet_size: usize,
    mac_length: usize,
    cipher_block_size: usize,
    rng_provider: SystemRandom,
}

/// What one decode step yields: a packet's view, nothing yet, or an error.
pub type DecodeResult = Result<Option<(Seq<u8>, Option<Seq<u8>>)>, CodecError>;

/// The size of the whole frame whose length prefix starts `buf`.
pub open spec fn frame_size(buf: Seq<u8>, mac_length: nat) -> int {
    4 + be_u32_at(buf, 0) + mac_length
}

/// The payload and tag that a complete frame carries.
pub open spec fn unpack_frame(frame: Seq<u8>, mac_length: nat) -> Result<
    (Seq<u8>, Option<Seq<u8>>),
    CodecError,
> {
    let packet_length = be_u32_at(frame, 0);
    let padding_length = frame[4] as int;
    if frame.len() < 5 || frame.len() != 4 + packet_length + mac_length || padding_length + 1
        > packet_length {
        Err(CodecError::MalformedPacket)
    } else {
        Ok(
            (
                frame.subrange(5, 4 + packet_length - padding_length),
                if mac_length > 0 {
                    Some(frame.subrange(4 + packet_length, frame.len() as int))
                } else {
                    None
                },
            ),
        )
    }
}

/// Taking a frame of `n` bytes off the front of `buf`, once all of it is there.
pub open spec fn take_frame(n: int, mac_length: nat, buf: Seq<u8>) -> (
    DecodeResult,
    DecodeState,
    Seq<u8>,
) {
    if buf.len() < n {
        (Ok(None), DecodeState::Data(n as usize), buf)
    } else {
        (
            match unpack_frame(buf.subrange(0, n), mac_length) {
                Ok(p) => Ok(Some(p)),
                Err(e) => Err(e),
            },
            DecodeState::Head,
            buf.subrange(n, buf.len() as int),
        )
    }
}

/// One decode step from `state` on the receive buffer `buf`: what it yields, the
/// next state, and what stays in the buffer.
pub open spec fn decode_step(state: DecodeState, max_packet_size: nat, mac_length: nat, buf: Seq<
    u8,
>) -> (DecodeResult, DecodeState, Seq<u8>) {
    match state {
        DecodeState::Head => {
            if buf.len() < 4 {
                (Ok(None), DecodeState::Head, buf)
            } else if frame_size(buf, mac_length) > max_packet_size {
                (Err(CodecError::PacketTooLarge), DecodeState::Head, buf)
            } else if be_u32_at(buf, 0) < 1 {
                (Err(CodecError::PacketTooSmall), DecodeState::Head, buf)
            } else {
                take_frame(frame_size(buf, mac_length), mac_length, buf)
            }
        },
        DecodeState::Data(n) => take_frame(n as int, mac_length, buf),
    }
}

/// The view of what `decode` returned.
pub open spec fn decode_result_view(r: Result<Option<Packet>, CodecError>) -> DecodeResult {
    match r {
        Ok(Some(p)) => Ok(Some(p@)),
        Ok(None) => Ok(None),
        Err(e) => Err(e),
    }
}

/// The block size that frames are padded to: the cipher's, and at least 8.
pub open spec fn block_size(cipher_block_size: nat) -> nat {
    if cipher_block_size < 8 {
        8
    } else {
        cipher_block_size
    }
}

/// The padding that brings `4 + 1 + payload_len` to a multiple of the block size,
/// with at least 4 bytes of it.
pub open spec fn padding_length(cipher_block_size: nat, payload_len: nat) -> nat {
    let b = block_size(cipher_block_size);
    let p = (b - (5 + payload_len) % b) as nat;
    if p < 4 {
        p + b
    } else {
        p
    }
}

/// Why a payload of `payload_len` bytes cannot be framed, if it cannot.
pub open spec fn encode_error(
    cipher_block_size: nat,
    mac_length: nat,
    max_packet_size: nat,
    payload_len: nat,
) -> Option<CodecError> {
    let padding = padding_length(cipher_block_size, payload_len);
    if 4 + 1 + payload_len + padding + mac_length > max_packet_size || 1 + payload_len + padding
        > u32::MAX {
        Some(CodecError::PacketTooLarge)
    } else if padding > 255 {
        Some(CodecError::PaddingTooLong)
    } else {
        None
    }
}

/// The frame, without its MAC, that carries `payload` padded with `padding`.
pub open spec fn frame_bytes(payload: Seq<u8>, padding: Seq<u8>) -> Seq<u8> {
    u32_be((1 + payload.len() + padding.len()) as u32) + seq![padding.len() as u8] + payload
        + padding
}

/// `n` zero bytes.
pub open spec fn zeros(n: nat) -> Seq<u8> {
    Seq::new(n, |i: int| 0u8)
}

impl PacketCodec {
    /// Where the deframer stands.
    pub closed spec fn spec_state(&self) -> DecodeState {
        self.state
    }

    /// The largest frame accepted or produced.
    pub closed spec fn spec_max_packet_size(&self) -> nat {
        self.max_packet_size as nat
    }

    /// The length of the trailing MAC.
    pub closed spec fn spec_mac_length(&self) -> nat {
        self.mac_length as nat
    }

    /// The cipher's block size; 0 without encryption.
    pub closed spec fn spec_cipher_block_size(&self) -> nat {
        self.cipher_block_size as nat
    }

    /// A codec with no encryption, waiting for a length prefix.
    pub fn new(max_packet_size: usize, mac_length: usize) -> (r: Self)
        ensures
            r.spec_state() == DecodeState::Head,
            r.spec_max_packet_size() == max_packet_size,
            r.spec_mac_length() == mac_length,
            r.spec_cipher_block_size() == 0,
    {
        PacketCodec {
            state: DecodeState::Head,
            max_packet_size,
            mac_length,
            cipher_block_size: 0,
            rng_provider: SystemRandom::new(),
        }
    }

    /// The largest frame, MAC included, that is accepted or produced.
    pub fn max_packet_size(&self) -> (r: usize)
        ensures
            r == self.spec_max_packet_size(),
    {
        self.max_packet_size
    }

    /// The length of the MAC that trails each frame; 0 when none is negotiated.
    pub fn mac_length(&self) -> (r: usize)
        ensures
            r == self.spec_mac_length(),
    {
        self.mac_length
    }

    /// The cipher's block size; 0 when no encryption is active.
    pub fn cipher_block_size(&self) -> (r: usize)
        ensures
            r == self.spec_cipher_block_size(),
    {
        self.cipher_block_size
    }

    /// Changes the largest frame that is accepted or produced.
    pub fn set_max_packet_size(&mut self, val: usize)
        ensures
            final(self).spec_max_packet_size() == val,
            final(self).spec_mac_length() == old(self).spec_mac_length(),
            final(self).spec_cipher_block_size() == old(self).spec_cipher_block_size(),
            final(self).spec_state() == old(self).spec_state(),
    {
        self.max_packet_size = val;
    }

    /// Called after a key exchange, between packets.
    pub fn set_mac_length(&mut self, mac_length: usize)
        ensures
            final(self).spec_mac_length() == mac_length,
            final(self).spec_max_packet_size() == old(self).spec_max_packet_size(),
            final(self).spec_cipher_block_size() == old(self).spec_cipher_block_size(),
            final(self).spec_state() == old(self).spec_state(),
    {
        self.mac_length = mac_length;
    }

    /// Called after a key exchange, between packets.
    pub fn set_cipher_block_size(&mut self, block_size: usize)
        ensures
            final(self).spec_cipher_block_size() == block_size,
            final(self).spec_max_packet_size() == old(self).spec_max_packet_size(),
            final(self).spec_mac_length() == old(self).spec_mac_length(),
            final(self).spec_state() == old(self).spec_state(),
    {
        self.cipher_block_size = block_size;
    }

    /// Peeks at the length prefix: the size of the frame it announces, once four
    /// bytes are there, after checking it against the limits.
    fn decode_head(&self, src: &mut BytesMut) -> (r: Result<Option<usize>, CodecError>)
        ensures
            buffer_bytes(*final(src)) == buffer_bytes(*old(src)),
            ({
                let buf = buffer_bytes(*old(src));
                let mac = self.mac_length as nat;
                if buf.len() < 4 {
                    r == Ok::<Option<usize>, CodecError>(None)
                } else if frame_size(buf, mac) > self.max_packet_size {
                    r == Err::<Option<usize>, CodecError>(CodecError::PacketTooLarge)
                } else if be_u32_at(buf, 0) < 1 {
                    r == Err::<Option<usize>, CodecError>(CodecError::PacketTooSmall)
                } else {
                    r matches Ok(Some(n)) && n == frame_size(buf, mac)
                }
            }),
    {
        let len = buffer_len(src);
        if len < 4 {
            return Ok(None);
        }
        let b0 = buffer_byte(src, 0) as u32;
        let b1 = buffer_byte(src, 1) as u32;
        let b2 = buffer_byte(src, 2) as u32;
        let b3 = buffer_byte(src, 3) as u32;
        assert(b0 * 0x1000000 + b1 * 0x10000 + b2 * 0x100 + b3 <= 0xffffffff) by (nonlinear_arith)
            requires
                b0 < 256,
                b1 < 256,
                b2 < 256,
                b3 < 256,
        ;
        let packet_length: u32 = b0 * 0x1000000 + b1 * 0x10000 + b2 * 0x100 + b3;
        let total: u128 = 4 + packet_length as u128 + self.mac_length as u128;
        // Bound the claimed size before any buffer growth.
        if total > self.max_packet_size as u128 {
            return Err(CodecError::PacketTooLarge);
        }
        if packet_length < 1 {
            return Err(CodecError::PacketTooSmall);
        }
        let total = total as usize;
        if total > len {
            buffer_reserve(src, total - len);
        }
        Ok(Some(total))
    }

    /// Takes the `n` bytes of a frame off the buffer, once all of them are there.
    fn decode_data(&self, n: usize, src: &mut BytesMut) -> (r: Option<BytesMut>)
        ensures
            ({
                let buf = buffer_bytes(*old(src));
                if buf.len() < n {
                    r is None && buffer_bytes(*final(src)) == buf
                } else {
                    r matches Some(frame) && buffer_bytes(frame) == buf.subrange(0, n as int)
                        && buffer_bytes(*final(src)) == buf.subrange(n as int, buf.len() as int)
                }
            }),
    {
        if buffer_len(src) < n {
            return None;
        }
        Some(buffer_split_to(src, n))
    }

    /// Reads the payload and the tag out of a complete frame.
    fn unpack(&self, frame: &Vec<u8>) -> (r: Result<Packet, CodecError>)
        ensures
            match r {
                Ok(p) => unpack_frame(frame@, self.mac_length as nat) == Ok::<
                    (Seq<u8>, Option<Seq<u8>>),
                    CodecError,
                >(p@),
                Err(e) => unpack_frame(frame@, self.mac_length as nat) == Err::<
                    (Seq<u8>, Option<Seq<u8>>),
                    CodecError,
                >(e),
            },
    {
        if frame.len() < 5 {
            return Err(CodecError::MalformedPacket);
        }
        let packet_length = read_u32_be(frame.as_slice(), 0) as usize;
        let padding_length = frame[4] as usize;
        if frame.len() - 4 < packet_length || frame.len() - 4 - packet_length != self.mac_length
            || padding_length + 1 > packet_length {
            return Err(CodecError::MalformedPacket);
        }
        let payload = copy_range(frame.as_slice(), 5, 4 + packet_length - padding_length);
        let mac = if self.mac_length > 0 {
            Some(copy_range(frame.as_slice(), 4 + packet_length, frame.len()))
        } else {
            None
        };
        Ok(Packet { payload, mac })
    }

    /// The padding length for a payload of `payload_len` bytes, in full width.
    fn padding_len_wide(&self, payload_len: usize) -> (r: u128)
        ensures
            r == padding_length(self.cipher_block_size as nat, payload_len as nat),
    {
        let block: u128 = if self.cipher_block_size < 8 {
            8
        } else {
            self.cipher_block_size as u128
        };
        let current: u128 = 5 + payload_len as u128;
        let padding: u128 = block - current % block;
        if padding < 4 {
            padding + block
        } else {
            padding
        }
    }

    /// The number of padding bytes that a payload of `payload_len` bytes gets, when
    /// it fits the padding-length byte.
    pub fn calculate_padding_length(&self, payload_len: usize) -> (r: Option<u8>)
        ensures
            r == (if padding_length(self.spec_cipher_block_size(), payload_len as nat) <= 255 {
                Some(padding_length(self.spec_cipher_block_size(), payload_len as nat) as u8)
            } else {
                None
            }),
    {
        let padding = self.padding_len_wide(payload_len);
        if padding > 255 {
            None
        } else {
            Some(padding as u8)
        }
    }

    /// Checks that a payload of `payload_len` bytes can be framed; its padding length if so.
    fn check_encodable(&self, payload_len: usize) -> (r: Result<u8, CodecError>)
        ensures
            match encode_error(
                self.cipher_block_size as nat,
                self.mac_length as nat,
                self.max_packet_size as nat,
                payload_len as nat,
            ) {
                Some(e) => r == Err::<u8, CodecError>(e),
                None => r == Ok::<u8, CodecError>(
                    padding_length(self.cipher_block_size as nat, payload_len as nat) as u8,
                ),
            },
    {
        let padding = self.padding_len_wide(payload_len);
        let total: u128 = 5 + payload_len as u128 + padding + self.mac_length as u128;
        if total > self.max_packet_size as u128 || 1 + payload_len as u128 + padding > 0xffff_ffff {
            return Err(CodecError::PacketTooLarge);
        }
        if padding > 255 {
            return Err(CodecError::PaddingTooLong);
        }
        Ok(padding as u8)
    }

    /// Frames `payload` with the given padding bytes: length prefix, padding-length
    /// byte, payload, padding. The MAC is left to the cipher layer.
    pub fn encode_with_padding(&self, payload: &[u8], padding: &[u8]) -> (r: Result<
        Vec<u8>,
        CodecError,
    >)
        requires
            encode_error(
                self.spec_cipher_block_size(),
                self.spec_mac_length(),
                self.spec_max_packet_size(),
                payload@.len(),
            ) is None ==> padding@.len() == padding_length(
                self.spec_cipher_block_size(),
                payload@.len(),
            ),
        ensures
            match encode_error(
                self.spec_cipher_block_size(),
                self.spec_mac_length(),
                self.spec_max_packet_size(),
                payload@.len(),
            ) {
                Some(e) => r == Err::<Vec<u8>, CodecError>(e),
                None => r matches Ok(frame) && frame@ == frame_bytes(payload@, padding@),
            },
    {
        let padding_length = self.check_encodable(payload.len())?;
        let packet_length = (1 + payload.len() + padding_length as usize) as u32;
        let mut out: Vec<u8> = Vec::new();
        push_u32_be(&mut out, packet_length);
        out.push(padding_length);
        append_bytes(&mut out, payload);
        append_bytes(&mut out, padding);
        assert(out@ =~= frame_bytes(payload@, padding@));
        Ok(out)
    }

    /// Frames `payload`. Without encryption the padding is zeros; with it, the
    /// padding comes from the secure random generator.
    pub fn encode(&self, payload: &[u8]) -> (r: Result<Vec<u8>, CodecError>)
        ensures
            match encode_error(
                self.spec_cipher_block_size(),
                self.spec_mac_length(),
                self.spec_max_packet_size(),
                payload@.len(),
            ) {
                Some(e) => r == Err::<Vec<u8>, CodecError>(e),
                None => {
                    let n = padding_length(self.spec_cipher_block_size(), payload@.len());
                    &&& self.spec_cipher_block_size() == 0 ==> (r matches Ok(frame) && frame@
                        == frame_bytes(payload@, zeros(n)))
                    &&& r matches Ok(frame) ==> exists|padding: Seq<u8>|
                        padding.len() == n && #[trigger] frame_bytes(payload@, padding) == frame@
                    &&& r matches Err(e) ==> e == CodecError::RandomUnavailable
                        && self.spec_cipher_block_size() != 0
                },
            },
    {
        let padding_length = self.check_encodable(payload.len())?;
        let mut padding: Vec<u8> = Vec::new();
        let mut i: u8 = 0;
        while i < padding_length
            invariant
                i <= padding_length,
                padding@ == zeros(i as nat),
            decreases padding_length - i,
        {
            padding.push(0u8);
            i = i + 1;
            assert(padding@ =~= zeros(i as nat));
        }
        if self.cipher_block_size != 0 {
            if fill_random(&self.rng_provider, &mut padding).is_err() {
                return Err(CodecError::RandomUnavailable);
            }
        }
        self.encode_with_padding(payload, padding.as_slice())
    }

    /// One decode attempt on the receive buffer: a packet once a whole frame is
    /// there, `Ok(None)` while more bytes are needed, or a fatal framing error.
    pub fn decode(&mut self, src: &mut BytesMut) -> (r: Result<Option<Packet>, CodecError>)
        ensures
            ({
                let (res, next, rest) = decode_step(
                    old(self).spec_state(),
                    old(self).spec_max_packet_size(),
                    old(self).spec_mac_length(),
                    buffer_bytes(*old(src)),
                );
                decode_result_view(r) == res && final(self).spec_state() == next && buffer_bytes(
                    *final(src),
                ) == rest
            }),
            final(self).spec_max_packet_size() == old(self).spec_max_packet_size(),
            final(self).spec_mac_length() == old(self).spec_mac_length(),
            final(self).spec_cipher_block_size() == old(self).spec_cipher_block_size(),
    {
        let n = match self.state {
            DecodeState::Head => match self.decode_head(src) {
                Err(e) => return Err(e),
                Ok(None) => return Ok(None),
                Ok(Some(n)) => {
                    self.state = DecodeState::Data(n);
                    n
                },
            },
            DecodeState::Data(n) => n,
        };
        match self.decode_data(n, src) {
            None => Ok(None),
            Some(frame) => {
                self.state = DecodeState::Head;
                let len = buffer_len(src);
                if len < 4 {
                    buffer_reserve(src, 4 - len);
                }
                let frame = buffer_to_vec(&frame);
                match self.unpack(&frame) {
                    Ok(p) => Ok(Some(p)),
                    Err(e) => Err(e),
                }
            },
        }
    }
}

/// Every frame that can be produced has between 4 and 255 bytes of padding, and
/// its length field, padding-length byte, payload and padding fill whole blocks
/// of `max(cipher_block_size, 8)` bytes.
pub proof fn lemma_padding_bounds(
    cipher_block_size: nat,
    mac_length: nat,
    max_packet_size: nat,
    payload_len: nat,
)
    requires
        encode_error(cipher_block_size, mac_length, max_packet_size, payload_len) is None,
    ensures
        4 <= padding_length(cipher_block_size, payload_len) <= 255,
        (5 + payload_len + padding_length(cipher_block_size, payload_len)) as int % (block_size(
            cipher_block_size,
        ) as int) == 0,
{
    let b = block_size(cipher_block_size) as int;
    let x = 5 + payload_len as int;
    let r = x % b;
    let q = x / b;
    assert(x == q * b + r && 0 <= r < b) by {
        vstd::arithmetic::div_mod::lemma_fundamental_div_mod(x, b);
        vstd::arithmetic::div_mod::lemma_mod_bound(x, b);
    }
    assert(x + (b - r) == (q + 1) * b) by (nonlinear_arith)
        requires
            x == q * b + r,
    ;
    assert(x + (b - r) + b == (q + 2) * b) by (nonlinear_arith)
        requires
            x == q * b + r,
    ;
    vstd::arithmetic::div_mod::lemma_mod_multiples_basic(q + 1, b);
    vstd::arithmetic::div_mod::lemma_mod_multiples_basic(q + 2, b);
}

/// Decoding a frame produced from `payload`, whatever its padding bytes, with a
/// tag of the negotiated MAC length appended, gives back `payload` and that tag,
/// consumes the whole frame and returns to waiting for a length prefix.
pub proof fn lemma_round_trip(
    cipher_block_size: nat,
    mac_length: nat,
    max_packet_size: nat,
    payload: Seq<u8>,
    padding: Seq<u8>,
    tag: Seq<u8>,
)
    requires
        encode_error(cipher_block_size, mac_length, max_packet_size, payload.len()) is None,
        padding.len() == padding_length(cipher_block_size, payload.len()),
        tag.len() == mac_length,
    ensures
        decode_step(
            DecodeState::Head,
            max_packet_size,
            mac_length,
            frame_bytes(payload, padding) + tag,
        ) == (
            Ok::<Option<(Seq<u8>, Option<Seq<u8>>)>, CodecError>(
                Some(
                    (
                        payload,
                        if mac_length > 0 {
                            Some(tag)
                        } else {
                            None
                        },
                    ),
                ),
            ),
            DecodeState::Head,
            Seq::<u8>::empty(),
        ),
{
    lemma_padding_bounds(cipher_block_size, mac_length, max_packet_size, payload.len());
    let packet_length = (1 + payload.len() + padding.len()) as u32;
    lemma_u32_be_roundtrip(packet_length);
    let f = frame_bytes(payload, padding) + tag;
    let head = u32_be(packet_length);
    assert(f.subrange(0, 4) =~= head);
    assert(be_u32_at(f, 0) == be_u32_at(head, 0));
    assert(f[4] == padding.len() as u8);
    let n = frame_size(f, mac_length);
    assert(n == f.len());
    assert(f.subrange(0, n) =~= f);
    assert(f.subrange(5, 4 + packet_length - padding.len()) =~= payload);
    assert(f.subrange(4 + packet_length, f.len() as int) =~= tag);
    assert(f.subrange(n, f.len() as int) =~= Seq::<u8>::empty());
}

/// The state after handing the first `k` bytes of `f` to `decode` one byte at a
/// time, with a decode attempt after each byte.
pub open spec fn state_after_bytewise(
    max_packet_size: nat,
    mac_length: nat,
    f: Seq<u8>,
    k: nat,
) -> DecodeState
    decreases k,
{
    if k == 0 {
        DecodeState::Head
    } else {
        decode_step(
            state_after_bytewise(max_packet_size, mac_length, f, (k - 1) as nat),
            max_packet_size,
            mac_length,
            f.subrange(0, k as int),
        ).1
    }
}

proof fn lemma_bytewise_states(max_packet_size: nat, mac_length: nat, f: Seq<u8>, k: nat)
    requires
        decode_step(DecodeState::Head, max_packet_size, mac_length, f).0 matches Ok(Some(_)),
        decode_step(DecodeState::Head, max_packet_size, mac_length, f).2.len() == 0,
        max_packet_size <= usize::MAX,
        k < f.len(),
    ensures
        state_after_bytewise(max_packet_size, mac_length, f, k) == (if k < 4 {
            DecodeState::Head
        } else {
            DecodeState::Data(f.len() as usize)
        }),
        1 <= k ==> decode_step(
            state_after_bytewise(max_packet_size, mac_length, f, (k - 1) as nat),
            max_packet_size,
            mac_length,
            f.subrange(0, k as int),
        ) == (
            Ok::<Option<(Seq<u8>, Option<Seq<u8>>)>, CodecError>(None),
            state_after_bytewise(max_packet_size, mac_length, f, k),
            f.subrange(0, k as int),
        ),
    decreases k,
{
    let n = frame_size(f, mac_length);
    assert(n == f.len());
    if k > 0 {
        lemma_bytewise_states(max_packet_size, mac_length, f, (k - 1) as nat);
        let buf = f.subrange(0, k as int);
        if k >= 4 {
            assert(be_u32_at(buf, 0) == be_u32_at(f, 0));
        }
    }
}

/// Handing the bytes of one well-formed frame to `decode` one byte at a time
/// yields "need more data" on every attempt but the last, and the last yields
/// what one attempt on the whole frame yields.
pub proof fn lemma_fragmentation(max_packet_size: nat, mac_length: nat, f: Seq<u8>)
    requires
        decode_step(DecodeState::Head, max_packet_size, mac_length, f).0 matches Ok(Some(_)),
        decode_step(DecodeState::Head, max_packet_size, mac_length, f).2.len() == 0,
        max_packet_size <= usize::MAX,
    ensures
        forall|k: nat|
            1 <= k < f.len() ==> decode_step(
                #[trigger] state_after_bytewise(max_packet_size, mac_length, f, (k - 1) as nat),
                max_packet_size,
                mac_length,
                f.subrange(0, k as int),
            ).0 == Ok::<Option<(Seq<u8>, Option<Seq<u8>>)>, CodecError>(None),
        decode_step(
            state_after_bytewise(max_packet_size, mac_length, f, (f.len() - 1) as nat),
            max_packet_size,
            mac_length,
            f,
        ) == decode_step(DecodeState::Head, max_packet_size, mac_length, f),
{
    assert forall|k: nat| 1 <= k < f.len() implies decode_step(
        #[trigger] state_after_bytewise(max_packet_size, mac_length, f, (k - 1) as nat),
        max_packet_size,
        mac_length,
        f.subrange(0, k as int),
    ).0 == Ok::<Option<(Seq<u8>, Option<Seq<u8>>)>, CodecError>(None) by {
        lemma_bytewise_states(max_packet_size, mac_length, f, k);
    }
    let last = (f.len() - 1) as nat;
    lemma_bytewise_states(max_packet_size, mac_length, f, last);
}

} // verus!
