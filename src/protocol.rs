//! The base CITP header that starts every packet.
use vstd::prelude::*;

use crate::codec::{
    le_u16, le_u32, lemma_le_u16_injective, lemma_le_u32_injective, push_u16, push_u32, read_u16,
    read_u32, CodecError, ReadFromBytes, SizeBytes, WriteToBytes,
};

verus! {

/// The length of the base header on the wire.
pub const HEADER_LEN: usize = 20;

/// The length of a layer-two content-type tag on the wire.
pub const CONTENT_TYPE_LEN: usize = 4;

/// The ASCII tag "CITP", read as a little-endian integer.
pub const COOKIE: u32 = 0x50544943;

/// The request index of a request, or the index of the request that a response answers.
#[derive(Clone, Copy, Debug, PartialEq, Eq, Structural, Hash)]
pub struct Kind {
    pub request_index: u16,
}

/// The 20-byte header common to every CITP packet.
#[derive(Clone, Copy, Debug, PartialEq, Eq, Structural, Hash)]
pub struct Header {
    /// Identifies the protocol: "CITP".
    pub cookie: u32,
    pub version_major: u8,
    pub version_minor: u8,
    pub kind: Kind,
    /// The byte length of the whole message, this header included.
    pub message_size: u32,
    /// The number of parts the message is split into.
    pub message_part_count: u16,
    /// The 0-based index of this part.
    pub message_part: u16,
    /// The four ASCII bytes that select the layer-two module, read as a little-endian integer.
    pub content_type: u32,
}

impl View for Header {
    type V = Header;

    open spec fn view(&self) -> Header {
        *self
    }
}

impl WriteToBytes for Header {
    open spec fn wire(&self) -> Seq<u8> {
        le_u32(self.cookie) + seq![self.version_major, self.version_minor] + le_u16(
            self.kind.request_index,
        ) + le_u32(self.message_size) + le_u16(self.message_part_count) + le_u16(self.message_part)
            + le_u32(self.content_type)
    }

    fn write_to_bytes(&self, out: &mut Vec<u8>) {
        let ghost start = out@;
        push_u32(out, self.cookie);
        out.push(self.version_major);
        out.push(self.version_minor);
        push_u16(out, self.kind.request_index);
        push_u32(out, self.message_size);
        push_u16(out, self.message_part_count);
        push_u16(out, self.message_part);
        push_u32(out, self.content_type);
        assert(out@ =~= start + self.wire());
    }
}

impl SizeBytes for Header {
    open spec fn spec_size(&self) -> nat {
        20
    }

    proof fn lemma_size(&self) {
    }

    fn size_bytes(&self) -> (r: usize) {
        HEADER_LEN
    }
}

impl Header {
    /// Where the wire form leads `buf`, each field fills its place.
    pub proof fn lemma_fields(&self, buf: Seq<u8>)
        requires
            self.wire().is_prefix_of(buf),
        ensures
            buf.len() >= 20,
            buf.subrange(0, 4) == le_u32(self.cookie),
            buf[4] == self.version_major,
            buf[5] == self.version_minor,
            buf.subrange(6, 8) == le_u16(self.kind.request_index),
            buf.subrange(8, 12) == le_u32(self.message_size),
            buf.subrange(12, 14) == le_u16(self.message_part_count),
            buf.subrange(14, 16) == le_u16(self.message_part),
            buf.subrange(16, 20) == le_u32(self.content_type),
    {
        let w = self.wire();
        let p = le_u32(self.cookie) + seq![self.version_major, self.version_minor];
        assert(p[4] == self.version_major && p[5] == self.version_minor);
        assert(w[4] == p[4] && w[5] == p[5]);
        assert(w =~= buf.subrange(0, 20));
        assert(buf.subrange(0, 4) =~= w.subrange(0, 4));
        assert(buf.subrange(6, 8) =~= w.subrange(6, 8));
        assert(buf.subrange(8, 12) =~= w.subrange(8, 12));
        assert(buf.subrange(12, 14) =~= w.subrange(12, 14));
        assert(buf.subrange(14, 16) =~= w.subrange(14, 16));
        assert(buf.subrange(16, 20) =~= w.subrange(16, 20));
    }
}

impl ReadFromBytes for Header {
    /// Any field values: the base layer checks format only.
    open spec fn well_formed(&self) -> bool {
        true
    }

    open spec fn read_error(buf: Seq<u8>) -> CodecError {
        CodecError::Underrun
    }

    proof fn lemma_unique(a: Self, b: Self, buf: Seq<u8>) {
        a.lemma_fields(buf);
        b.lemma_fields(buf);
        lemma_le_u32_injective(a.cookie, b.cookie);
        lemma_le_u16_injective(a.kind.request_index, b.kind.request_index);
        lemma_le_u32_injective(a.message_size, b.message_size);
        lemma_le_u16_injective(a.message_part_count, b.message_part_count);
        lemma_le_u16_injective(a.message_part, b.message_part);
        lemma_le_u32_injective(a.content_type, b.content_type);
    }

    /// Fails, with an underrun, exactly when fewer than 20 bytes are given.
    fn read_from_bytes(buf: &[u8]) -> (r: Result<Self, CodecError>)
        ensures
            r is Err <==> buf@.len() < 20,
    {
        if buf.len() < HEADER_LEN {
            proof {
                assert forall|v: Self| #[trigger]
                    v.well_formed() && v.wire().is_prefix_of(buf@) implies false by {
                    v.lemma_fields(buf@);
                }
            }
            return Err(CodecError::Underrun);
        }
        let h = Header {
            cookie: read_u32(buf, 0),
            version_major: buf[4],
            version_minor: buf[5],
            kind: Kind { request_index: read_u16(buf, 6) },
            message_size: read_u32(buf, 8),
            message_part_count: read_u16(buf, 12),
            message_part: read_u16(buf, 14),
            content_type: read_u32(buf, 16),
        };
        proof {
            assert(h.wire() =~= buf@.subrange(0, 20));
            assert forall|v: Self| #[trigger]
                v.well_formed() && v.wire().is_prefix_of(buf@) implies v@ == h@ by {
                Self::lemma_unique(v, h, buf@);
            }
        }
        Ok(h)
    }
}

/// The tag constants are the ASCII bytes they stand for.
pub proof fn lemma_cookie_bytes()
    ensures
        le_u32(COOKIE) == seq![0x43u8, 0x49u8, 0x54u8, 0x50u8],
{
    assert(le_u32(COOKIE) =~= seq![0x43u8, 0x49u8, 0x54u8, 0x50u8]);
}

} // verus!
