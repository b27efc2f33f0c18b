//! Primitive little-endian codec and the contracts shared by every structure.
use vstd::prelude::*;

verus! {

/// Why a value could not be decoded, or text could not be encoded.
#[derive(Clone, Copy, Debug, PartialEq, Eq, Structural)]
pub enum CodecError {
    /// Fewer bytes remain than a field or a declared count needs.
    Underrun,
    /// A UCS-2 string lacks its terminating zero unit within the bytes, or text holds a
    /// character that UCS-2 cannot carry.
    MalformedString,
    /// A content-type tag or an enumeration byte matches no known value.
    UnrecognizedDiscriminant,
}

/// Little-endian form of a 16-bit integer.
pub open spec fn le_u16(v: u16) -> Seq<u8> {
    seq![(v % 256) as u8, (v / 256) as u8]
}

/// Little-endian form of a 32-bit integer.
pub open spec fn le_u32(v: u32) -> Seq<u8> {
    seq![(v % 256) as u8, ((v / 256) % 256) as u8, ((v / 65536) % 256) as u8, (v / 16777216) as u8]
}

/// A structure with a canonical byte form.
pub trait WriteToBytes: View {
    /// The bytes that stand for this value on the wire, fields in declared order.
    spec fn wire(&self) -> Seq<u8>;

    /// Appends the wire form to `out`.
    fn write_to_bytes(&self, out: &mut Vec<u8>)
        ensures
            final(out)@ == old(out)@ + self.wire(),
    ;
}

/// A structure that can report the length of its wire form without writing it.
pub trait SizeBytes: WriteToBytes {
    /// The size of the structure, from its fields.
    spec fn spec_size(&self) -> nat;

    /// The size stated from the fields is the length of the wire form.
    proof fn lemma_size(&self)
        ensures
            self.wire().len() == self.spec_size(),
    ;

    fn size_bytes(&self) -> (r: usize)
        requires
            self.spec_size() <= usize::MAX,
        ensures
            r == self.spec_size(),
    ;
}

/// `v` is well formed and `buf` begins with its wire form.
pub open spec fn leads<T: ReadFromBytes>(buf: Seq<u8>, v: T) -> bool {
    v.well_formed() && v.wire().is_prefix_of(buf)
}

/// A structure that can be decoded from the front of a byte buffer.
pub trait ReadFromBytes: WriteToBytes + Sized {
    /// The values that a decoder can give back.
    spec fn well_formed(&self) -> bool;

    /// The error reported for a buffer that no well-formed value leads.
    spec fn read_error(buf: Seq<u8>) -> CodecError;

    /// At most one well-formed value leads a buffer.
    proof fn lemma_unique(a: Self, b: Self, buf: Seq<u8>)
        requires
            a.well_formed(),
            a.wire().is_prefix_of(buf),
            b.well_formed(),
            b.wire().is_prefix_of(buf),
        ensures
            a@ == b@,
            a.wire() == b.wire(),
    ;

    /// Decodes the value that `buf` begins with. It consumes `wire().len()` bytes of the
    /// buffer, which is what `size_bytes` reports for the result.
    fn read_from_bytes(buf: &[u8]) -> (r: Result<Self, CodecError>)
        ensures
            r is Ok ==> r->Ok_0.well_formed() && r->Ok_0.wire().is_prefix_of(buf@),
            r is Err ==> r->Err_0 == Self::read_error(buf@),
            forall|v: Self|
                #[trigger] v.well_formed() && v.wire().is_prefix_of(buf@) ==> r is Ok && r->Ok_0@
                    == v@,
    ;
}

/// Appends the little-endian form of `v`.
pub fn push_u16(out: &mut Vec<u8>, v: u16)
    ensures
        final(out)@ == old(out)@ + le_u16(v),
{
    out.push((v % 256) as u8);
    out.push((v / 256) as u8);
    assert(final(out)@ =~= old(out)@ + le_u16(v));
}

/// Appends the little-endian form of `v`.
pub fn push_u32(out: &mut Vec<u8>, v: u32)
    ensures
        final(out)@ == old(out)@ + le_u32(v),
{
    out.push((v % 256) as u8);
    out.push(((v / 256) % 256) as u8);
    out.push(((v / 65536) % 256) as u8);
    out.push((v / 16777216) as u8);
    assert(final(out)@ =~= old(out)@ + le_u32(v));
}

/// Reads the little-endian 16-bit integer at `at`.
pub fn read_u16(buf: &[u8], at: usize) -> (r: u16)
    requires
        at + 2 <= buf@.len(),
    ensures
        le_u16(r) == buf@.subrange(at as int, at + 2),
{
    let b0 = buf[at] as u16;
    let b1 = buf[at + 1] as u16;
    let r = b0 + 256 * b1;
    assert(le_u16(r) =~= buf@.subrange(at as int, at + 2));
    r
}

/// Reads the little-endian 32-bit integer at `at`.
pub fn read_u32(buf: &[u8], at: usize) -> (r: u32)
    requires
        at + 4 <= buf@.len(),
    ensures
        le_u32(r) == buf@.subrange(at as int, at + 4),
{
    let b0 = buf[at] as u32;
    let b1 = buf[at + 1] as u32;
    let b2 = buf[at + 2] as u32;
    let b3 = buf[at + 3] as u32;
    proof {
        lemma_le_u32_of_bytes(b0, b1, b2, b3);
    }
    let r = b0 + 256 * b1 + 65536 * b2 + 16777216 * b3;
    assert(le_u32(r) =~= buf@.subrange(at as int, at + 4));
    r
}

proof fn lemma_le_u32_of_bytes(b0: u32, b1: u32, b2: u32, b3: u32)
    requires
        b0 < 256,
        b1 < 256,
        b2 < 256,
        b3 < 256,
    ensures
        b0 + 256 * b1 + 65536 * b2 + 16777216 * b3 <= u32::MAX,
        ({
            let r = (b0 + 256 * b1 + 65536 * b2 + 16777216 * b3) as u32;
            &&& r % 256 == b0
            &&& (r / 256) % 256 == b1
            &&& (r / 65536) % 256 == b2
            &&& r / 16777216 == b3
        }),
{
    assert(b0 + 256 * b1 + 65536 * b2 + 16777216 * b3 <= u32::MAX) by (nonlinear_arith)
        requires
            b0 < 256,
            b1 < 256,
            b2 < 256,
            b3 < 256,
    ;
    let r = (b0 + 256 * b1 + 65536 * b2 + 16777216 * b3) as u32;
    assert(r % 256 == b0 && (r / 256) % 256 == b1 && (r / 65536) % 256 == b2 && r / 16777216
        == b3) by (nonlinear_arith)
        requires
            b0 < 256,
            b1 < 256,
            b2 < 256,
            b3 < 256,
            r == b0 + 256 * b1 + 65536 * b2 + 16777216 * b3,
    ;
}

/// Distinct integers have distinct little-endian forms.
pub proof fn lemma_le_u16_injective(a: u16, b: u16)
    requires
        le_u16(a) == le_u16(b),
    ensures
        a == b,
{
    assert(le_u16(a)[0] == le_u16(b)[0] && le_u16(a)[1] == le_u16(b)[1]);
}

/// Distinct integers have distinct little-endian forms.
pub proof fn lemma_le_u32_injective(a: u32, b: u32)
    requires
        le_u32(a) == le_u32(b),
    ensures
        a == b,
{
    assert(le_u32(a)[0] == le_u32(b)[0] && le_u32(a)[1] == le_u32(b)[1]);
    assert(le_u32(a)[2] == le_u32(b)[2] && le_u32(a)[3] == le_u32(b)[3]);
}

/// A concatenation leads a buffer exactly when its first part does and its second part
/// leads what follows the first.
pub proof fn lemma_prefix_concat(x: Seq<u8>, y: Seq<u8>, buf: Seq<u8>)
    ensures
        (x + y).is_prefix_of(buf) <==> (x.is_prefix_of(buf) && y.is_prefix_of(
            buf.skip(x.len() as int),
        )),
{
    if (x + y).is_prefix_of(buf) {
        assert(x =~= buf.subrange(0, x.len() as int)) by {
            assert(x =~= (x + y).subrange(0, x.len() as int));
        }
        assert(y =~= buf.skip(x.len() as int).subrange(0, y.len() as int)) by {
            assert(y =~= (x + y).subrange(x.len() as int, (x + y).len() as int));
        }
    }
    if x.is_prefix_of(buf) && y.is_prefix_of(buf.skip(x.len() as int)) {
        assert(x + y =~= buf.subrange(0, (x + y).len() as int));
    }
}

/// The integer whose little-endian form is the four bytes at `i`.
pub open spec fn u32_at(buf: Seq<u8>, i: int) -> int {
    buf[i] + 256 * buf[i + 1] + 65536 * buf[i + 2] + 16777216 * buf[i + 3]
}

/// A little-endian form read back gives the integer.
pub proof fn lemma_le_u32_value(x: u32, buf: Seq<u8>, i: int)
    requires
        0 <= i,
        i + 4 <= buf.len(),
        buf.subrange(i, i + 4) == le_u32(x),
    ensures
        x == u32_at(buf, i),
{
    assert(buf[i] == le_u32(x)[0] && buf[i + 1] == le_u32(x)[1]);
    assert(buf[i + 2] == le_u32(x)[2] && buf[i + 3] == le_u32(x)[3]);
    assert(x == (x % 256) + 256 * ((x / 256) % 256) + 65536 * ((x / 65536) % 256) + 16777216 * (x
        / 16777216)) by (nonlinear_arith);
}

/// Round trip: a well-formed value leads its own wire form followed by any bytes, and any
/// well-formed value that leads those bytes is that value. With the contract of
/// `read_from_bytes`, decoding what `write_to_bytes` wrote gives the value back.
pub proof fn lemma_round_trip<T: ReadFromBytes>(v: T, rest: Seq<u8>)
    requires
        v.well_formed(),
    ensures
        v.wire().is_prefix_of(v.wire() + rest),
        forall|w: T| #[trigger]
            w.well_formed() && w.wire().is_prefix_of(v.wire() + rest) ==> w@ == v@,
{
    assert(v.wire() =~= (v.wire() + rest).subrange(0, v.wire().len() as int));
    assert forall|w: T| #[trigger]
        w.well_formed() && w.wire().is_prefix_of(v.wire() + rest) implies w@ == v@ by {
        T::lemma_unique(w, v, v.wire() + rest);
    }
}

/// Size consistency: the size stated from a value's fields, which `size_bytes` returns, is
/// the number of bytes that `write_to_bytes` appends.
pub proof fn lemma_size_consistent<T: SizeBytes>(v: T)
    ensures
        v.wire().len() == v.spec_size(),
{
    v.lemma_size();
}

/// A little-endian form read back gives the integer.
pub proof fn lemma_le_u16_value(x: u16, buf: Seq<u8>, i: int)
    requires
        0 <= i,
        i + 2 <= buf.len(),
        buf.subrange(i, i + 2) == le_u16(x),
    ensures
        x == buf[i] + 256 * buf[i + 1],
{
    assert(buf[i] == le_u16(x)[0] && buf[i + 1] == le_u16(x)[1]);
}

} // verus!
