//! Voice-packet integrity check and header/chunk parsing.
//!
//! A raw voice packet is a byte string whose last four bytes are a CRC-32
//! checksum (IEEE polynomial) of everything before them.  A packet that
//! passes the check carries a 64-bit speaker id, a fixed marker byte, the
//! fixed sample rate, a type selector and, for encoded-audio packets, a
//! region of length-prefixed codec chunks tagged with frame sequence numbers.
//!
//! The whole format is captured by spec functions, and [`parse_voice_packet`]
//! is proved to return exactly what the spec-level parse says, for every
//! input byte string.

use vstd::prelude::*;

use crate::bytes::{le16_at, le32_at, le64_at, read_u16_le, read_u32_le, read_u64_le};

verus! {

/// Marker byte that every well-formed voice packet carries after the
/// speaker id.
pub const PACKET_MARKER: u8 = 0x0B;

/// Type selector of a packet that carries encoded codec chunks.
pub const TYPE_CHUNKS: u8 = 0x06;

/// Type selector of a silence marker packet.
pub const TYPE_SILENCE: u8 = 0x00;

/// CRC-32 (IEEE polynomial) of a byte string, as the outside checksum
/// routine computes it.  The value depends on the bytes alone.
pub uninterp spec fn crc32_of(b: Seq<u8>) -> u32;

/// Relies on crc::crc32::checksum_ieee: a CRC-32 with the IEEE polynomial
/// over the given bytes, a function of the bytes alone.
#[verifier::external_body]
pub fn crc32(data: &[u8]) -> (r: u32)
    ensures
        r == crc32_of(data@),
{
    crc::crc32::checksum_ieee(data)
}

/// One codec chunk: an encoded audio frame together with its sequence
/// number inside the current clip.
#[derive(Debug, PartialEq, Eq)]
pub struct VoiceChunk {
    pub frame: u16,
    pub data: Vec<u8>,
}

/// Spec-level image of a [`VoiceChunk`].
pub struct SpecChunk {
    pub frame: u16,
    pub data: Seq<u8>,
}

impl View for VoiceChunk {
    type V = SpecChunk;

    open spec fn view(&self) -> SpecChunk {
        SpecChunk { frame: self.frame, data: self.data@ }
    }
}

/// Spec-level image of a vector of codec chunks.
pub open spec fn view_chunks(cs: Seq<VoiceChunk>) -> Seq<SpecChunk> {
    cs.map(|i: int, c: VoiceChunk| c@)
}

/// What a voice packet carries once validated and parsed.
#[derive(Debug, PartialEq, Eq)]
pub enum VoicePayload {
    /// Encoded codec chunks for one speaker.
    Chunks { speaker: u64, chunks: Vec<VoiceChunk> },
    /// A silence marker: no audio, only a duration in nanoseconds.
    Silence { speaker: u64, duration_ns: u16 },
}

/// Spec-level image of a [`VoicePayload`].
pub enum SpecPayload {
    Chunks { speaker: u64, chunks: Seq<SpecChunk> },
    Silence { speaker: u64, duration_ns: u16 },
}

impl View for VoicePayload {
    type V = SpecPayload;

    open spec fn view(&self) -> SpecPayload {
        match self {
            VoicePayload::Chunks { speaker, chunks } => SpecPayload::Chunks {
                speaker: *speaker,
                chunks: view_chunks(chunks@),
            },
            VoicePayload::Silence { speaker, duration_ns } => SpecPayload::Silence {
                speaker: *speaker,
                duration_ns: *duration_ns,
            },
        }
    }
}

/// Why a raw packet was rejected.
#[derive(PartialEq, Eq, Structural, Debug, Clone, Copy)]
pub enum PacketError {
    /// The payload ends before a field that the format promises.
    Truncated,
    /// The trailing checksum does not match the payload bytes; the packet
    /// is dropped without touching any state.
    ChecksumMismatch,
    /// The mandatory marker byte has an unexpected value.
    BadMarker(u8),
    /// The sample-rate field differs from the fixed rate of the format.
    BadSampleRate(u16),
    /// The type selector is neither the chunk-stream nor the silence type.
    UnknownType(u8),
}

impl PacketError {
    /// A checksum mismatch only drops the one packet; every other packet
    /// error is a protocol violation that ends the run.
    pub open spec fn spec_is_fatal(self) -> bool {
        self != PacketError::ChecksumMismatch
    }

    /// Returns whether this error aborts the whole run.
    pub fn is_fatal(&self) -> (r: bool)
        ensures
            r == self.spec_is_fatal(),
    {
        !(matches!(self, PacketError::ChecksumMismatch))
    }
}

/// Spec-level parse of the chunk region `r` from byte offset `pos` on:
/// a sequence of {16-bit signed length, 16-bit frame number, payload}
/// records, where length -1 is a skipped sentinel, any other negative
/// length is malformed, and the region must be consumed exactly.
pub open spec fn spec_parse_region(r: Seq<u8>, pos: int) -> Option<Seq<SpecChunk>>
    decreases r.len() - pos,
{
    if pos >= r.len() {
        Some(Seq::empty())
    } else if pos + 2 > r.len() {
        None
    } else {
        let len = le16_at(r, pos);
        if len == 0xFFFF {
            // chunk length -1: end-of-region sentinel, skipped
            spec_parse_region(r, pos + 2)
        } else if len >= 0x8000 {
            // any other negative length makes the record unreadable
            None
        } else if pos + 4 + len > r.len() {
            None
        } else {
            let frame = le16_at(r, pos + 2);
            let data = r.subrange(pos + 4, pos + 4 + len);
            match spec_parse_region(r, pos + 4 + len) {
                Some(rest) => Some(seq![SpecChunk { frame, data }] + rest),
                None => None,
            }
        }
    }
}

/// Spec-level parse of a packet body (the payload with its trailing
/// checksum already stripped and checked).
pub open spec fn spec_parse_body(b: Seq<u8>) -> Result<SpecPayload, PacketError> {
    if b.len() < 12 {
        Err(PacketError::Truncated)
    } else {
        let speaker = le64_at(b, 0);
        let marker = b[8];
        let rate = le16_at(b, 9);
        let typ = b[11];
        if marker != PACKET_MARKER {
            Err(PacketError::BadMarker(marker))
        } else if rate != crate::SAMPLE_RATE as u16 {
            Err(PacketError::BadSampleRate(rate))
        } else if typ == TYPE_CHUNKS {
            if b.len() < 14 {
                Err(PacketError::Truncated)
            } else {
                let region_len = le16_at(b, 12);
                if 14 + region_len > b.len() {
                    Err(PacketError::Truncated)
                } else {
                    match spec_parse_region(b.subrange(14, 14 + region_len), 0) {
                        Some(chunks) => Ok(SpecPayload::Chunks { speaker, chunks }),
                        None => Err(PacketError::Truncated),
                    }
                }
            }
        } else if typ == TYPE_SILENCE {
            if b.len() < 14 {
                Err(PacketError::Truncated)
            } else {
                Ok(SpecPayload::Silence { speaker, duration_ns: le16_at(b, 12) })
            }
        } else {
            Err(PacketError::UnknownType(typ))
        }
    }
}

/// Spec-level parse of a whole raw packet: split off the trailing 32-bit
/// checksum, compare it against the CRC-32 of the body, and parse the body.
pub open spec fn spec_parse_packet(p: Seq<u8>) -> Result<SpecPayload, PacketError> {
    if p.len() < 4 {
        Err(PacketError::Truncated)
    } else {
        let body = p.subrange(0, p.len() - 4);
        if crc32_of(body) != le32_at(p, p.len() - 4) {
            Err(PacketError::ChecksumMismatch)
        } else {
            spec_parse_body(body)
        }
    }
}

/// Validates and parses one raw voice packet.
///
/// Returns exactly what the spec-level parse of the byte string says:
/// the parsed payload on success, and otherwise the first error the
/// format rules give for this input.
pub fn parse_voice_packet(p: &Vec<u8>) -> (r: Result<VoicePayload, PacketError>)
    ensures
        match r {
            Ok(payload) => spec_parse_packet(p@) == Ok::<SpecPayload, PacketError>(payload@),
            Err(e) => spec_parse_packet(p@) == Err::<SpecPayload, PacketError>(e),
        },
{
    if p.len() < 4 {
        return Err(PacketError::Truncated);
    }
    let body_len = p.len() - 4;
    let body = copy_range(p, 0, body_len);
    proof {
        assert(body@ =~= p@.subrange(0, p@.len() - 4));
    }
    let sum = read_u32_le(p, body_len);
    let computed = crc32(body.as_slice());
    if computed != sum {
        return Err(PacketError::ChecksumMismatch);
    }
    parse_body(&body)
}

/// Copies `v[start .. start + len]` into a fresh vector.
fn copy_range(v: &Vec<u8>, start: usize, len: usize) -> (r: Vec<u8>)
    requires
        start + len <= v.len(),
    ensures
        r@ == v@.subrange(start as int, start + len),
{
    let mut out: Vec<u8> = Vec::new();
    let mut i: usize = 0;
    while i < len
        invariant
            start + len <= v.len(),
            i <= len,
            out@ == v@.subrange(start as int, start + i),
        decreases len - i,
    {
        out.push(v[start + i]);
        proof {
            assert(out@ =~= v@.subrange(start as int, start + i + 1));
        }
        i = i + 1;
    }
    out
}

/// Parses a packet body whose checksum already matched.
fn parse_body(b: &Vec<u8>) -> (r: Result<VoicePayload, PacketError>)
    ensures
        match r {
            Ok(payload) => spec_parse_body(b@) == Ok::<SpecPayload, PacketError>(payload@),
            Err(e) => spec_parse_body(b@) == Err::<SpecPayload, PacketError>(e),
        },
{
    if b.len() < 12 {
        return Err(PacketError::Truncated);
    }
    let speaker = read_u64_le(b, 0);
    let marker = b[8];
    let rate = read_u16_le(b, 9);
    let typ = b[11];
    if marker != PACKET_MARKER {
        return Err(PacketError::BadMarker(marker));
    }
    if rate != crate::SAMPLE_RATE as u16 {
        return Err(PacketError::BadSampleRate(rate));
    }
    if typ == TYPE_CHUNKS {
        if b.len() < 14 {
            return Err(PacketError::Truncated);
        }
        let region_len = read_u16_le(b, 12);
        if region_len as usize > b.len() - 14 {
            return Err(PacketError::Truncated);
        }
        let region = copy_range(b, 14, region_len as usize);
        match parse_region(&region) {
            Some(chunks) => Ok(VoicePayload::Chunks { speaker, chunks }),
            None => Err(PacketError::Truncated),
        }
    } else if typ == TYPE_SILENCE {
        if b.len() < 14 {
            return Err(PacketError::Truncated);
        }
        Ok(VoicePayload::Silence { speaker, duration_ns: read_u16_le(b, 12) })
    } else {
        Err(PacketError::UnknownType(typ))
    }
}

/// Parses the whole chunk region, mirroring [`spec_parse_region`].
fn parse_region(r: &Vec<u8>) -> (res: Option<Vec<VoiceChunk>>)
    ensures
        match res {
            Some(chunks) => spec_parse_region(r@, 0) == Some(view_chunks(chunks@)),
            None => spec_parse_region(r@, 0) is None,
        },
{
    let mut chunks: Vec<VoiceChunk> = Vec::new();
    let mut pos: usize = 0;
    loop
        invariant
            pos <= r@.len(),
            (match spec_parse_region(r@, pos as int) {
                Some(rest) => spec_parse_region(r@, 0) == Some(view_chunks(chunks@) + rest),
                None => spec_parse_region(r@, 0) is None,
            }),
        decreases r@.len() - pos,
    {
        if r.len() - pos == 0 {
            proof {
                assert(view_chunks(chunks@) + Seq::<SpecChunk>::empty() =~= view_chunks(chunks@));
            }
            return Some(chunks);
        }
        if r.len() - pos < 2 {
            return None;
        }
        let len = read_u16_le(r, pos);
        if len == 0xFFFF {
            pos = pos + 2;
        } else if len >= 0x8000 {
            return None;
        } else if (len as usize) + 4 > r.len() - pos {
            return None;
        } else {
            let frame = read_u16_le(r, pos + 2);
            let data = copy_range(r, pos + 4, len as usize);
            let ghost prev = chunks@;
            let ghost c = SpecChunk { frame, data: r@.subrange(pos + 4, pos + 4 + len as int) };
            chunks.push(VoiceChunk { frame, data });
            proof {
                assert(view_chunks(chunks@) =~= view_chunks(prev) + seq![c]);
                match spec_parse_region(r@, pos + 4 + len as int) {
                    Some(rest) => {
                        assert(spec_parse_region(r@, pos as int) == Some(seq![c] + rest));
                        assert(view_chunks(prev) + (seq![c] + rest) =~= view_chunks(chunks@)
                            + rest);
                    },
                    None => {
                        assert(spec_parse_region(r@, pos as int) is None);
                    },
                }
            }
            pos = pos + 4 + len as usize;
        }
    }
}

} // verus!
