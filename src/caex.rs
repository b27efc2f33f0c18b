//! CAEX (Capture Extensions): the layer-two header, the message envelope, and the show
//! synchronisation and fixture messages. The laser feed messages are re-exported here.
use vstd::prelude::*;

use crate::codec::{
    le_u16, le_u32, lemma_le_u16_injective, lemma_le_u32_injective, lemma_prefix_concat, push_u16,
    push_u32, read_u16, read_u32, CodecError, ReadFromBytes, SizeBytes, WriteToBytes,
};
use crate::protocol;
use crate::text::{has_terminator, lemma_leads_terminated, terminated_len, Ucs2};

pub use crate::laser::{GetLaserFeedList, LaserFeedControl, LaserFeedFrame, LaserFeedList, LaserPoint};

verus! {

/// "CAEX" read as a little-endian integer: the base header's content type for this module.
pub const CAEX_TAG: u32 = 0x58454143;

/// The header at the start of every CAEX packet.
#[derive(Clone, Copy, Debug, PartialEq, Eq, Structural, Hash)]
pub struct Header {
    /// The CITP header. CITP ContentType is "CAEX".
    pub citp_header: protocol::Header,
    /// A cookie defining which CAEX message it is.
    pub content_type: u32,
}

impl Header {
    /// The four ASCII bytes that select this module in the base header.
    pub const CONTENT_TYPE: [u8; 4] = [0x43, 0x41, 0x45, 0x58];

    /// A single-part CITP 1.0 header for a CAEX message of the given kind whose body takes
    /// `body_size` bytes: the message size counts both headers and the body.
    pub fn for_body(content_type: u32, body_size: usize) -> (r: Header)
        requires
            body_size + 24 <= u32::MAX,
        ensures
            r.citp_header.cookie == protocol::COOKIE,
            r.citp_header.version_major == 1,
            r.citp_header.version_minor == 0,
            r.citp_header.kind.request_index == 0,
            r.citp_header.message_size == body_size + 24,
            r.citp_header.message_part_count == 1,
            r.citp_header.message_part == 0,
            r.citp_header.content_type == CAEX_TAG,
            r.content_type == content_type,
    {
        Header {
            citp_header: protocol::Header {
                cookie: protocol::COOKIE,
                version_major: 1,
                version_minor: 0,
                kind: protocol::Kind { request_index: 0 },
                message_size: (protocol::HEADER_LEN + protocol::CONTENT_TYPE_LEN + body_size) as u32,
                message_part_count: 1,
                message_part: 0,
                content_type: CAEX_TAG,
            },
            content_type,
        }
    }
}

/// The module tag, as an integer and as bytes, is "CAEX".
pub proof fn lemma_caex_tag_bytes()
    ensures
        le_u32(CAEX_TAG) == Header::CONTENT_TYPE@,
        Header::CONTENT_TYPE@ == seq![0x43u8, 0x41u8, 0x45u8, 0x58u8],
{
    assert(Header::CONTENT_TYPE@ =~= seq![0x43u8, 0x41u8, 0x45u8, 0x58u8]);
    assert(le_u32(CAEX_TAG) =~= seq![0x43u8, 0x41u8, 0x45u8, 0x58u8]);
}

impl View for Header {
    type V = Header;

    open spec fn view(&self) -> Header {
        *self
    }
}

impl WriteToBytes for Header {
    open spec fn wire(&self) -> Seq<u8> {
        self.citp_header.wire() + le_u32(self.content_type)
    }

    fn write_to_bytes(&self, out: &mut Vec<u8>) {
        let ghost start = out@;
        self.citp_header.write_to_bytes(out);
        push_u32(out, self.content_type);
        assert(out@ =~= start + self.wire());
    }
}

impl SizeBytes for Header {
    open spec fn spec_size(&self) -> nat {
        24
    }

    proof fn lemma_size(&self) {
    }

    fn size_bytes(&self) -> (r: usize) {
        protocol::HEADER_LEN + protocol::CONTENT_TYPE_LEN
    }
}

impl Header {
    /// Where the wire form leads `buf`, the base header leads it and the tag follows.
    pub proof fn lemma_fields(&self, buf: Seq<u8>)
        requires
            self.wire().is_prefix_of(buf),
        ensures
            buf.len() >= 24,
            self.citp_header.wire().is_prefix_of(buf),
            buf.subrange(20, 24) == le_u32(self.content_type),
    {
        lemma_prefix_concat(self.citp_header.wire(), le_u32(self.content_type), buf);
        assert(buf.subrange(20, 24) =~= buf.skip(20).subrange(0, 4));
    }
}

impl ReadFromBytes for Header {
    open spec fn well_formed(&self) -> bool {
        true
    }

    open spec fn read_error(buf: Seq<u8>) -> CodecError {
        CodecError::Underrun
    }

    proof fn lemma_unique(a: Self, b: Self, buf: Seq<u8>) {
        a.lemma_fields(buf);
        b.lemma_fields(buf);
        protocol::Header::lemma_unique(a.citp_header, b.citp_header, buf);
        lemma_le_u32_injective(a.content_type, b.content_type);
    }

    /// Fails, with an underrun, exactly when fewer than 24 bytes are given.
    fn read_from_bytes(buf: &[u8]) -> (r: Result<Self, CodecError>)
        ensures
            r is Err <==> buf@.len() < 24,
    {
        if buf.len() < 24 {
            proof {
                assert forall|v: Self| #[trigger]
                    v.well_formed() && v.wire().is_prefix_of(buf@) implies false by {
                    v.lemma_fields(buf@);
                }
            }
            return Err(CodecError::Underrun);
        }
        let citp_header = match protocol::Header::read_from_bytes(buf) {
            Ok(h) => h,
            Err(e) => {
                return Err(e);
            },
        };
        let h = Header { citp_header, content_type: read_u32(buf, 20) };
        proof {
            assert(citp_header.wire() =~= buf@.subrange(0, 20));
            assert(h.wire() =~= buf@.subrange(0, 24));
            assert forall|v: Self| #[trigger]
                v.well_formed() && v.wire().is_prefix_of(buf@) implies v@ == h@ by {
                Self::lemma_unique(v, h, buf@);
            }
        }
        Ok(h)
    }
}

/// A CAEX message: the header, then the body, with no padding.
#[derive(Clone, Debug, PartialEq, Eq, Hash)]
pub struct Message<T> {
    /// The CAEX header - the base header with the CAEX content type.
    pub caex_header: Header,
    /// The data for the message.
    pub message: T,
}

impl<T: View> View for Message<T> {
    type V = (Header, T::V);

    open spec fn view(&self) -> Self::V {
        (self.caex_header, self.message@)
    }
}

impl<T: WriteToBytes> WriteToBytes for Message<T> {
    open spec fn wire(&self) -> Seq<u8> {
        self.caex_header.wire() + self.message.wire()
    }

    fn write_to_bytes(&self, out: &mut Vec<u8>) {
        let ghost start = out@;
        self.caex_header.write_to_bytes(out);
        self.message.write_to_bytes(out);
        assert(out@ =~= start + self.wire());
    }
}

impl<T: SizeBytes> SizeBytes for Message<T> {
    open spec fn spec_size(&self) -> nat {
        24 + self.message.spec_size()
    }

    proof fn lemma_size(&self) {
        self.message.lemma_size();
    }

    fn size_bytes(&self) -> (r: usize) {
        24 + self.message.size_bytes()
    }
}

impl<T: SizeBytes> Message<T> {
    /// Wraps a body of the given kind in a single-part header whose message size is the
    /// size of both headers and the body.
    pub fn new(content_type: u32, message: T) -> (r: Message<T>)
        requires
            message.spec_size() + 24 <= u32::MAX,
        ensures
            r.caex_header == Header::for_body_spec(content_type, message.spec_size()),
            r.message == message,
            r.caex_header.citp_header.message_size == r.spec_size(),
    {
        let size = message.size_bytes();
        Message { caex_header: Header::for_body(content_type, size), message }
    }
}

impl Header {
    /// The header that `for_body` builds.
    pub open spec fn for_body_spec(content_type: u32, body_size: nat) -> Header {
        Header {
            citp_header: protocol::Header {
                cookie: protocol::COOKIE,
                version_major: 1,
                version_minor: 0,
                kind: protocol::Kind { request_index: 0 },
                message_size: (body_size + 24) as u32,
                message_part_count: 1,
                message_part: 0,
                content_type: CAEX_TAG,
            },
            content_type,
        }
    }
}

/// Sent unsolicited by both Capture and the peer when a show is opened, or when the user
/// enables show synchronisation.
#[derive(Clone, Debug, PartialEq, Eq, Hash)]
pub struct EnterShow {
    /// The name of the show.
    pub name: Ucs2,
}

impl EnterShow {
    pub const CONTENT_TYPE: u32 = 0x00020100;
}

/// Sent unsolicited by both Capture and the peer when a show is closed, or when the user
/// disables show synchronisation.
#[derive(Clone, Copy, Debug, PartialEq, Eq, Structural, Hash)]
pub struct LeaveShow {}

impl LeaveShow {
    pub const CONTENT_TYPE: u32 = 0x00020101;
}

/// Asks the other side for its full patch list; the answer is a fixture list of the
/// existing patch.
#[derive(Clone, Copy, Debug, PartialEq, Eq, Structural, Hash)]
pub struct FixtureListRequest {}

impl FixtureListRequest {
    pub const CONTENT_TYPE: u32 = 0x00020200;
}

impl View for EnterShow {
    type V = Seq<u16>;

    open spec fn view(&self) -> Seq<u16> {
        self.name@
    }
}

impl WriteToBytes for EnterShow {
    open spec fn wire(&self) -> Seq<u8> {
        self.name.wire()
    }

    fn write_to_bytes(&self, out: &mut Vec<u8>) {
        self.name.write_to_bytes(out);
    }
}

impl SizeBytes for EnterShow {
    open spec fn spec_size(&self) -> nat {
        self.name.spec_size()
    }

    proof fn lemma_size(&self) {
        self.name.lemma_size();
    }

    fn size_bytes(&self) -> (r: usize) {
        self.name.size_bytes()
    }
}

impl ReadFromBytes for EnterShow {
    open spec fn well_formed(&self) -> bool {
        self.name.well_formed()
    }

    open spec fn read_error(buf: Seq<u8>) -> CodecError {
        CodecError::MalformedString
    }

    proof fn lemma_unique(a: Self, b: Self, buf: Seq<u8>) {
        Ucs2::lemma_unique(a.name, b.name, buf);
    }

    fn read_from_bytes(buf: &[u8]) -> (r: Result<Self, CodecError>) {
        match Ucs2::read_from_bytes(buf) {
            Ok(name) => {
                let r = EnterShow { name };
                proof {
                    assert forall|v: Self| #[trigger]
                        v.well_formed() && v.wire().is_prefix_of(buf@) implies v@ == r@ by {
                        Self::lemma_unique(v, r, buf@);
                    }
                }
                Ok(r)
            },
            Err(e) => {
                proof {
                    assert forall|v: Self| #[trigger]
                        v.well_formed() && v.wire().is_prefix_of(buf@) implies false by {
                        assert(v.name.well_formed() && v.name.wire().is_prefix_of(buf@));
                    }
                }
                Err(e)
            },
        }
    }
}

impl View for LeaveShow {
    type V = LeaveShow;

    open spec fn view(&self) -> LeaveShow {
        *self
    }
}

impl WriteToBytes for LeaveShow {
    /// The message has no body.
    open spec fn wire(&self) -> Seq<u8> {
        Seq::empty()
    }

    fn write_to_bytes(&self, out: &mut Vec<u8>) {
        assert(out@ =~= old(out)@ + self.wire());
    }
}

impl SizeBytes for LeaveShow {
    open spec fn spec_size(&self) -> nat {
        0
    }

    proof fn lemma_size(&self) {
    }

    fn size_bytes(&self) -> (r: usize) {
        0
    }
}

impl ReadFromBytes for LeaveShow {
    open spec fn well_formed(&self) -> bool {
        true
    }

    open spec fn read_error(buf: Seq<u8>) -> CodecError {
        CodecError::Underrun
    }

    proof fn lemma_unique(a: Self, b: Self, buf: Seq<u8>) {
    }

    /// Never fails: the body is empty.
    fn read_from_bytes(buf: &[u8]) -> (r: Result<Self, CodecError>)
        ensures
            r is Ok,
    {
        let r = LeaveShow {  };
        assert(r.wire().is_prefix_of(buf@));
        Ok(r)
    }
}

impl View for FixtureListRequest {
    type V = FixtureListRequest;

    open spec fn view(&self) -> FixtureListRequest {
        *self
    }
}

impl WriteToBytes for FixtureListRequest {
    /// The message has no body.
    open spec fn wire(&self) -> Seq<u8> {
        Seq::empty()
    }

    fn write_to_bytes(&self, out: &mut Vec<u8>) {
        assert(out@ =~= old(out)@ + self.wire());
    }
}

impl SizeBytes for FixtureListRequest {
    open spec fn spec_size(&self) -> nat {
        0
    }

    proof fn lemma_size(&self) {
    }

    fn size_bytes(&self) -> (r: usize) {
        0
    }
}

impl ReadFromBytes for FixtureListRequest {
    open spec fn well_formed(&self) -> bool {
        true
    }

    open spec fn read_error(buf: Seq<u8>) -> CodecError {
        CodecError::Underrun
    }

    proof fn lemma_unique(a: Self, b: Self, buf: Seq<u8>) {
    }

    /// Never fails: the body is empty.
    fn read_from_bytes(buf: &[u8]) -> (r: Result<Self, CodecError>)
        ensures
            r is Ok,
    {
        let r = FixtureListRequest {  };
        assert(r.wire().is_prefix_of(buf@));
        Ok(r)
    }
}

/// What a fixture list carries.
#[derive(Clone, Copy, Debug, PartialEq, Eq, Structural, Hash)]
pub enum FixtureListMessageType {
    ExistingPatchList,
    NewFixture,
    ExchangeFixture,
}

impl View for FixtureListMessageType {
    type V = FixtureListMessageType;

    open spec fn view(&self) -> FixtureListMessageType {
        *self
    }
}

impl FixtureListMessageType {
    /// The byte that stands for the type on the wire.
    pub open spec fn spec_code(self) -> u8 {
        match self {
            FixtureListMessageType::ExistingPatchList => 0,
            FixtureListMessageType::NewFixture => 1,
            FixtureListMessageType::ExchangeFixture => 2,
        }
    }

    pub fn code(&self) -> (r: u8)
        ensures
            r == self.spec_code(),
    {
        match self {
            FixtureListMessageType::ExistingPatchList => 0,
            FixtureListMessageType::NewFixture => 1,
            FixtureListMessageType::ExchangeFixture => 2,
        }
    }
}

impl WriteToBytes for FixtureListMessageType {
    open spec fn wire(&self) -> Seq<u8> {
        seq![self.spec_code()]
    }

    fn write_to_bytes(&self, out: &mut Vec<u8>) {
        out.push(self.code());
        assert(out@ =~= old(out)@ + self.wire());
    }
}

impl SizeBytes for FixtureListMessageType {
    open spec fn spec_size(&self) -> nat {
        1
    }

    proof fn lemma_size(&self) {
    }

    fn size_bytes(&self) -> (r: usize) {
        1
    }
}

impl ReadFromBytes for FixtureListMessageType {
    open spec fn well_formed(&self) -> bool {
        true
    }

    open spec fn read_error(buf: Seq<u8>) -> CodecError {
        if buf.len() == 0 {
            CodecError::Underrun
        } else {
            CodecError::UnrecognizedDiscriminant
        }
    }

    proof fn lemma_unique(a: Self, b: Self, buf: Seq<u8>) {
        assert(a.wire()[0] == buf[0] && b.wire()[0] == buf[0]);
    }

    /// Fails with an underrun on an empty buffer, and with an unrecognised discriminant
    /// when the first byte is above 2.
    fn read_from_bytes(buf: &[u8]) -> (r: Result<Self, CodecError>)
        ensures
            r is Err <==> buf@.len() == 0 || buf@[0] > 2,
    {
        if buf.len() == 0 {
            return Err(CodecError::Underrun);
        }
        let r = match buf[0] {
            0 => FixtureListMessageType::ExistingPatchList,
            1 => FixtureListMessageType::NewFixture,
            2 => FixtureListMessageType::ExchangeFixture,
            _ => {
                proof {
                    assert forall|v: Self| #[trigger]
                        v.well_formed() && v.wire().is_prefix_of(buf@) implies false by {
                        assert(v.wire()[0] == buf@[0]);
                    }
                }
                return Err(CodecError::UnrecognizedDiscriminant);
            },
        };
        proof {
            assert(r.wire() =~= buf@.subrange(0, 1));
            assert forall|v: Self| #[trigger]
                v.well_formed() && v.wire().is_prefix_of(buf@) implies v@ == r@ by {
                Self::lemma_unique(v, r, buf@);
            }
        }
        Ok(r)
    }
}

/// The wire form of a run of fixture identifiers, four bytes each.
pub open spec fn ids_wire(s: Seq<u32>) -> Seq<u8> {
    Seq::new(4 * s.len(), |j: int| le_u32(s[j / 4])[j % 4])
}

/// The wire form of an identifier list: the count of identifiers held, then each one.
pub open spec fn id_list_wire(s: Seq<u32>) -> Seq<u8> {
    le_u16(s.len() as u16) + ids_wire(s)
}

proof fn lemma_ids_wire_slot(s: Seq<u32>, i: int)
    requires
        0 <= i < s.len(),
    ensures
        ids_wire(s).subrange(4 * i, 4 * i + 4) == le_u32(s[i]),
{
    assert forall|k: int| 0 <= k < 4 implies #[trigger] ((4 * i + k) / 4) == i && (4 * i + k) % 4
        == k by {
    }
    assert(ids_wire(s).subrange(4 * i, 4 * i + 4) =~= le_u32(s[i]));
}

proof fn lemma_ids_wire_push(s: Seq<u32>, x: u32)
    ensures
        ids_wire(s.push(x)) == ids_wire(s) + le_u32(x),
{
    let n = s.len() as int;
    assert forall|k: int| 0 <= k < 4 implies #[trigger] ((4 * n + k) / 4) == n && (4 * n + k) % 4
        == k by {
    }
    assert forall|j: int| 0 <= j < 4 * n implies 0 <= #[trigger] (j / 4) < n by {
    }
    assert(ids_wire(s.push(x)) =~= ids_wire(s) + le_u32(x));
}

/// Where an identifier list leads `buf`, its count and each identifier fill their places.
proof fn lemma_id_list_fields(s: Seq<u32>, buf: Seq<u8>)
    requires
        id_list_wire(s).is_prefix_of(buf),
    ensures
        buf.len() >= 2 + 4 * s.len(),
        buf.subrange(0, 2) == le_u16(s.len() as u16),
        forall|i: int|
            0 <= i < s.len() ==> buf.subrange(2 + 4 * i, 6 + 4 * i) == le_u32(#[trigger] s[i]),
{
    lemma_prefix_concat(le_u16(s.len() as u16), ids_wire(s), buf);
    assert forall|i: int| 0 <= i < s.len() implies buf.subrange(2 + 4 * i, 6 + 4 * i) == le_u32(
        #[trigger] s[i],
    ) by {
        lemma_ids_wire_slot(s, i);
        assert(buf.subrange(2 + 4 * i, 6 + 4 * i) =~= buf.skip(2).subrange(4 * i, 4 * i + 4));
        assert(buf.skip(2).subrange(4 * i, 4 * i + 4) =~= ids_wire(s).subrange(4 * i, 4 * i + 4));
    }
}

/// At most one list of at most 65535 identifiers leads a buffer.
proof fn lemma_id_list_unique(a: Seq<u32>, b: Seq<u32>, buf: Seq<u8>)
    requires
        a.len() <= 65535,
        b.len() <= 65535,
        id_list_wire(a).is_prefix_of(buf),
        id_list_wire(b).is_prefix_of(buf),
    ensures
        a == b,
{
    lemma_id_list_fields(a, buf);
    lemma_id_list_fields(b, buf);
    lemma_le_u16_injective(a.len() as u16, b.len() as u16);
    assert forall|i: int| 0 <= i < a.len() implies a[i] == b[i] by {
        lemma_le_u32_injective(a[i], b[i]);
    }
    assert(a =~= b);
}

/// Writes the count of identifiers held, then each identifier.
fn write_id_list(ids: &Vec<u32>, out: &mut Vec<u8>)
    ensures
        final(out)@ == old(out)@ + id_list_wire(ids@),
{
    let ghost start = out@;
    #[verifier::truncate]
    let count = ids.len() as u16;
    push_u16(out, count);
    assert(ids@.take(0) =~= Seq::<u32>::empty());
    assert(ids_wire(Seq::<u32>::empty()) =~= Seq::<u8>::empty());
    assert(out@ =~= start + le_u16(count) + ids_wire(ids@.take(0)));
    let mut i: usize = 0;
    while i < ids.len()
        invariant
            i <= ids@.len(),
            count == ids@.len() as u16,
            out@ == start + le_u16(count) + ids_wire(ids@.take(i as int)),
        decreases ids@.len() - i,
    {
        push_u32(out, ids[i]);
        proof {
            assert(ids@.take(i + 1) =~= ids@.take(i as int).push(ids@[i as int]));
            lemma_ids_wire_push(ids@.take(i as int), ids@[i as int]);
        }
        i += 1;
    }
    assert(ids@.take(i as int) =~= ids@);
    assert(out@ =~= start + id_list_wire(ids@));
}

/// Reads an identifier list: its count, then that many identifiers.
fn read_id_list(buf: &[u8]) -> (r: Result<Vec<u32>, CodecError>)
    ensures
        r is Ok ==> r->Ok_0@.len() <= 65535 && id_list_wire(r->Ok_0@).is_prefix_of(buf@),
        r is Err ==> r->Err_0 == CodecError::Underrun,
        r is Err <==> buf@.len() < 2 || buf@.len() < 2 + 4 * (buf@[0] + 256 * buf@[1]),
        r is Err ==> forall|s: Seq<u32>|
            s.len() <= 65535 ==> !(#[trigger] id_list_wire(s)).is_prefix_of(buf@),
{
    let len = buf.len();
    if len < 2 {
        proof {
            assert forall|s: Seq<u32>|
                s.len() <= 65535 implies !(#[trigger] id_list_wire(s)).is_prefix_of(buf@) by {
                if id_list_wire(s).is_prefix_of(buf@) {
                    lemma_id_list_fields(s, buf@);
                }
            }
        }
        return Err(CodecError::Underrun);
    }
    let count = read_u16(buf, 0);
    if len - 2 < 4 * (count as usize) {
        proof {
            assert forall|s: Seq<u32>|
                s.len() <= 65535 implies !(#[trigger] id_list_wire(s)).is_prefix_of(buf@) by {
                if id_list_wire(s).is_prefix_of(buf@) {
                    lemma_id_list_fields(s, buf@);
                    lemma_le_u16_injective(count, s.len() as u16);
                }
            }
        }
        return Err(CodecError::Underrun);
    }
    let mut ids: Vec<u32> = Vec::new();
    let mut i: usize = 0;
    while i < count as usize
        invariant
            i <= count,
            2 + 4 * count <= len == buf@.len(),
            ids@.len() == i,
            forall|k: int|
                0 <= k < i ==> le_u32(#[trigger] ids@[k]) == buf@.subrange(2 + 4 * k, 6 + 4 * k),
        decreases count - i,
    {
        let id = read_u32(buf, 2 + 4 * i);
        ids.push(id);
        i += 1;
    }
    proof {
        let n = count as int;
        assert forall|j: int| 0 <= j < 4 * n implies #[trigger] ids_wire(ids@)[j] == buf@[2 + j] by {
            let k = j / 4;
            assert(0 <= k < n);
            assert(le_u32(ids@[k])[j % 4] == buf@.subrange(2 + 4 * k, 6 + 4 * k)[j % 4]);
        }
        assert(ids_wire(ids@) =~= buf@.subrange(2, 2 + 4 * n));
        assert(id_list_wire(ids@) =~= buf@.subrange(0, 2 + 4 * n));
    }
    Ok(ids)
}

/// Sent unsolicited by both Capture and the peer whenever fixtures have been modified.
#[derive(Clone, Debug, PartialEq, Eq, Hash)]
pub struct FixtureModify {
    /// The number of fixtures following.
    pub fixture_count: u16,
    /// The identifiers of the fixtures.
    pub fixture_identifiers: Vec<u32>,
}

/// Sent unsolicited by both Capture and the peer whenever fixtures have been removed.
#[derive(Clone, Debug, PartialEq, Eq, Hash)]
pub struct FixtureRemove {
    /// The number of fixture identifiers following.
    pub fixture_count: u16,
    /// The identifiers of the fixtures.
    pub fixture_identifiers: Vec<u32>,
}

impl FixtureRemove {
    pub const CONTENT_TYPE: u32 = 0x00020203;
}

impl View for FixtureModify {
    /// The count field and the identifiers.
    type V = (u16, Seq<u32>);

    open spec fn view(&self) -> Self::V {
        (self.fixture_count, self.fixture_identifiers@)
    }
}

impl WriteToBytes for FixtureModify {
    open spec fn wire(&self) -> Seq<u8> {
        id_list_wire(self.fixture_identifiers@)
    }

    fn write_to_bytes(&self, out: &mut Vec<u8>) {
        write_id_list(&self.fixture_identifiers, out);
    }
}

impl SizeBytes for FixtureModify {
    open spec fn spec_size(&self) -> nat {
        2 + 4 * self.fixture_identifiers@.len()
    }

    proof fn lemma_size(&self) {
    }

    fn size_bytes(&self) -> (r: usize) {
        2 + 4 * self.fixture_identifiers.len()
    }
}

impl ReadFromBytes for FixtureModify {
    /// The count field agrees with the identifiers held.
    open spec fn well_formed(&self) -> bool {
        self.fixture_count == self.fixture_identifiers@.len()
    }

    open spec fn read_error(buf: Seq<u8>) -> CodecError {
        CodecError::Underrun
    }

    proof fn lemma_unique(a: Self, b: Self, buf: Seq<u8>) {
        lemma_id_list_unique(a.fixture_identifiers@, b.fixture_identifiers@, buf);
    }

    /// Fails, with an underrun, exactly when the buffer is shorter than the count field or
    /// than the identifiers that it declares.
    fn read_from_bytes(buf: &[u8]) -> (r: Result<Self, CodecError>)
        ensures
            r is Err <==> buf@.len() < 2 || buf@.len() < 2 + 4 * (buf@[0] + 256 * buf@[1]),
    {
        match read_id_list(buf) {
            Ok(ids) => {
                let r = FixtureModify { fixture_count: ids.len() as u16, fixture_identifiers: ids };
                proof {
                    assert forall|v: Self| #[trigger]
                        v.well_formed() && v.wire().is_prefix_of(buf@) implies v@ == r@ by {
                        Self::lemma_unique(v, r, buf@);
                    }
                }
                Ok(r)
            },
            Err(e) => {
                proof {
                    assert forall|v: Self| #[trigger]
                        v.well_formed() && v.wire().is_prefix_of(buf@) implies false by {
                        assert(id_list_wire(v.fixture_identifiers@).is_prefix_of(buf@));
                    }
                }
                Err(e)
            },
        }
    }
}

impl View for FixtureRemove {
    /// The count field and the identifiers.
    type V = (u16, Seq<u32>);

    open spec fn view(&self) -> Self::V {
        (self.fixture_count, self.fixture_identifiers@)
    }
}

impl WriteToBytes for FixtureRemove {
    open spec fn wire(&self) -> Seq<u8> {
        id_list_wire(self.fixture_identifiers@)
    }

    fn write_to_bytes(&self, out: &mut Vec<u8>) {
        write_id_list(&self.fixture_identifiers, out);
    }
}

impl SizeBytes for FixtureRemove {
    open spec fn spec_size(&self) -> nat {
        2 + 4 * self.fixture_identifiers@.len()
    }

    proof fn lemma_size(&self) {
    }

    fn size_bytes(&self) -> (r: usize) {
        2 + 4 * self.fixture_identifiers.len()
    }
}

impl ReadFromBytes for FixtureRemove {
    /// The count field agrees with the identifiers held.
    open spec fn well_formed(&self) -> bool {
        self.fixture_count == self.fixture_identifiers@.len()
    }

    open spec fn read_error(buf: Seq<u8>) -> CodecError {
        CodecError::Underrun
    }

    proof fn lemma_unique(a: Self, b: Self, buf: Seq<u8>) {
        lemma_id_list_unique(a.fixture_identifiers@, b.fixture_identifiers@, buf);
    }

    /// Fails, with an underrun, exactly when the buffer is shorter than the count field or
    /// than the identifiers that it declares.
    fn read_from_bytes(buf: &[u8]) -> (r: Result<Self, CodecError>)
        ensures
            r is Err <==> buf@.len() < 2 || buf@.len() < 2 + 4 * (buf@[0] + 256 * buf@[1]),
    {
        match read_id_list(buf) {
            Ok(ids) => {
                let r = FixtureRemove { fixture_count: ids.len() as u16, fixture_identifiers: ids };
                proof {
                    assert forall|v: Self| #[trigger]
                        v.well_formed() && v.wire().is_prefix_of(buf@) implies v@ == r@ by {
                        Self::lemma_unique(v, r, buf@);
                    }
                }
                Ok(r)
            },
            Err(e) => {
                proof {
                    assert forall|v: Self| #[trigger]
                        v.well_formed() && v.wire().is_prefix_of(buf@) implies false by {
                        assert(id_list_wire(v.fixture_identifiers@).is_prefix_of(buf@));
                    }
                }
                Err(e)
            },
        }
    }
}

/// Sent unsolicited by the peer to Capture to convey live fixture information.
#[derive(Clone, Debug, PartialEq, Eq, Hash)]
pub struct FixtureConsoleStatus {
    /// The number of fixtures following.
    pub fixture_count: u16,
    /// The state of each fixture.
    pub fixtures_state: Vec<FixtureState>,
}

impl FixtureConsoleStatus {
    pub const CONTENT_TYPE: u32 = 0x00020400;
}

/// The live state of one fixture, six bytes on the wire.
#[derive(Clone, Copy, Debug, PartialEq, Eq, Structural, Hash)]
pub struct FixtureState {
    /// Console's fixture identifier.
    pub fixture_identifier: u32,
    /// The fixture has been locked from manipulation.
    pub locked: u8,
    /// The fixture has a clearable programmer state.
    pub clearable: u8,
}

impl View for FixtureState {
    type V = FixtureState;

    open spec fn view(&self) -> FixtureState {
        *self
    }
}

impl WriteToBytes for FixtureState {
    open spec fn wire(&self) -> Seq<u8> {
        le_u32(self.fixture_identifier) + seq![self.locked, self.clearable]
    }

    fn write_to_bytes(&self, out: &mut Vec<u8>) {
        push_u32(out, self.fixture_identifier);
        out.push(self.locked);
        out.push(self.clearable);
        assert(out@ =~= old(out)@ + self.wire());
    }
}

impl SizeBytes for FixtureState {
    open spec fn spec_size(&self) -> nat {
        6
    }

    proof fn lemma_size(&self) {
    }

    fn size_bytes(&self) -> (r: usize) {
        6
    }
}

/// Decodes the state whose six bytes start at `at`.
fn read_state_at(buf: &[u8], at: usize) -> (r: FixtureState)
    requires
        at + 6 <= buf@.len(),
    ensures
        r.wire() == buf@.subrange(at as int, at + 6),
{
    assert(at + 6 <= buf.len());
    let r = FixtureState {
        fixture_identifier: read_u32(buf, at),
        locked: buf[at + 4],
        clearable: buf[at + 5],
    };
    assert(r.wire() =~= buf@.subrange(at as int, at + 6));
    r
}

proof fn lemma_state_wire_injective(a: FixtureState, b: FixtureState)
    requires
        a.wire() == b.wire(),
    ensures
        a == b,
{
    assert(le_u32(a.fixture_identifier) =~= a.wire().subrange(0, 4));
    assert(le_u32(b.fixture_identifier) =~= b.wire().subrange(0, 4));
    lemma_le_u32_injective(a.fixture_identifier, b.fixture_identifier);
    assert(a.wire()[4] == a.locked && a.wire()[5] == a.clearable);
    assert(b.wire()[4] == b.locked && b.wire()[5] == b.clearable);
}

impl ReadFromBytes for FixtureState {
    open spec fn well_formed(&self) -> bool {
        true
    }

    open spec fn read_error(buf: Seq<u8>) -> CodecError {
        CodecError::Underrun
    }

    proof fn lemma_unique(a: Self, b: Self, buf: Seq<u8>) {
        assert(a.wire() =~= buf.subrange(0, 6));
        assert(b.wire() =~= buf.subrange(0, 6));
        lemma_state_wire_injective(a, b);
    }

    /// Fails, with an underrun, exactly when fewer than 6 bytes are given.
    fn read_from_bytes(buf: &[u8]) -> (r: Result<Self, CodecError>)
        ensures
            r is Err <==> buf@.len() < 6,
    {
        if buf.len() < 6 {
            return Err(CodecError::Underrun);
        }
        let st = read_state_at(buf, 0);
        proof {
            assert forall|v: Self| #[trigger]
                v.well_formed() && v.wire().is_prefix_of(buf@) implies v@ == st@ by {
                Self::lemma_unique(v, st, buf@);
            }
        }
        Ok(st)
    }
}

/// The wire form of a run of fixture states, six bytes each.
pub open spec fn states_wire(s: Seq<FixtureState>) -> Seq<u8> {
    Seq::new(6 * s.len(), |j: int| s[j / 6].wire()[j % 6])
}

proof fn lemma_states_wire_slot(s: Seq<FixtureState>, i: int)
    requires
        0 <= i < s.len(),
    ensures
        states_wire(s).subrange(6 * i, 6 * i + 6) == s[i].wire(),
{
    assert forall|k: int| 0 <= k < 6 implies #[trigger] ((6 * i + k) / 6) == i && (6 * i + k) % 6
        == k by {
    }
    assert(states_wire(s).subrange(6 * i, 6 * i + 6) =~= s[i].wire());
}

proof fn lemma_states_wire_push(s: Seq<FixtureState>, x: FixtureState)
    ensures
        states_wire(s.push(x)) == states_wire(s) + x.wire(),
{
    let n = s.len() as int;
    assert forall|k: int| 0 <= k < 6 implies #[trigger] ((6 * n + k) / 6) == n && (6 * n + k) % 6
        == k by {
    }
    assert forall|j: int| 0 <= j < 6 * n implies 0 <= #[trigger] (j / 6) < n by {
    }
    assert(states_wire(s.push(x)) =~= states_wire(s) + x.wire());
}

impl View for FixtureConsoleStatus {
    /// The count field and the states.
    type V = (u16, Seq<FixtureState>);

    open spec fn view(&self) -> Self::V {
        (self.fixture_count, self.fixtures_state@)
    }
}

impl FixtureConsoleStatus {
    /// Where the wire form leads `buf`, the count and each state fill their places.
    proof fn lemma_fields(&self, buf: Seq<u8>)
        requires
            self.wire().is_prefix_of(buf),
        ensures
            buf.len() >= 2 + 6 * self.fixtures_state@.len(),
            buf.subrange(0, 2) == le_u16(self.fixtures_state@.len() as u16),
            forall|i: int|
                0 <= i < self.fixtures_state@.len() ==> buf.subrange(2 + 6 * i, 8 + 6 * i) == (
                #[trigger] self.fixtures_state@[i]).wire(),
    {
        let s = self.fixtures_state@;
        lemma_prefix_concat(le_u16(s.len() as u16), states_wire(s), buf);
        assert forall|i: int| 0 <= i < s.len() implies buf.subrange(2 + 6 * i, 8 + 6 * i) == (
        #[trigger] s[i]).wire() by {
            lemma_states_wire_slot(s, i);
            assert(buf.subrange(2 + 6 * i, 8 + 6 * i) =~= buf.skip(2).subrange(6 * i, 6 * i + 6));
            assert(buf.skip(2).subrange(6 * i, 6 * i + 6) =~= states_wire(s).subrange(
                6 * i,
                6 * i + 6,
            ));
        }
    }
}

impl WriteToBytes for FixtureConsoleStatus {
    /// The count of states held, then each state.
    open spec fn wire(&self) -> Seq<u8> {
        le_u16(self.fixtures_state@.len() as u16) + states_wire(self.fixtures_state@)
    }

    fn write_to_bytes(&self, out: &mut Vec<u8>) {
        let ghost start = out@;
        let states = &self.fixtures_state;
        #[verifier::truncate]
        let count = states.len() as u16;
        push_u16(out, count);
        assert(states@.take(0) =~= Seq::<FixtureState>::empty());
        assert(states_wire(Seq::<FixtureState>::empty()) =~= Seq::<u8>::empty());
        assert(out@ =~= start + le_u16(count) + states_wire(states@.take(0)));
        let mut i: usize = 0;
        while i < states.len()
            invariant
                i <= states@.len(),
                count == states@.len() as u16,
                out@ == start + le_u16(count) + states_wire(states@.take(i as int)),
            decreases states@.len() - i,
        {
            states[i].write_to_bytes(out);
            proof {
                assert(states@.take(i + 1) =~= states@.take(i as int).push(states@[i as int]));
                lemma_states_wire_push(states@.take(i as int), states@[i as int]);
            }
            i += 1;
        }
        assert(states@.take(i as int) =~= states@);
        assert(out@ =~= start + self.wire());
    }
}

impl SizeBytes for FixtureConsoleStatus {
    open spec fn spec_size(&self) -> nat {
        2 + 6 * self.fixtures_state@.len()
    }

    proof fn lemma_size(&self) {
    }

    fn size_bytes(&self) -> (r: usize) {
        2 + 6 * self.fixtures_state.len()
    }
}

impl ReadFromBytes for FixtureConsoleStatus {
    /// The count field agrees with the states held.
    open spec fn well_formed(&self) -> bool {
        self.fixture_count == self.fixtures_state@.len()
    }

    open spec fn read_error(buf: Seq<u8>) -> CodecError {
        CodecError::Underrun
    }

    proof fn lemma_unique(a: Self, b: Self, buf: Seq<u8>) {
        a.lemma_fields(buf);
        b.lemma_fields(buf);
        let sa = a.fixtures_state@;
        let sb = b.fixtures_state@;
        lemma_le_u16_injective(sa.len() as u16, sb.len() as u16);
        assert forall|i: int| 0 <= i < sa.len() implies sa[i] == sb[i] by {
            lemma_state_wire_injective(sa[i], sb[i]);
        }
        assert(sa =~= sb);
    }

    /// Fails, with an underrun, exactly when the buffer is shorter than the count field or
    /// than the states that it declares.
    fn read_from_bytes(buf: &[u8]) -> (r: Result<Self, CodecError>)
        ensures
            r is Err <==> buf@.len() < 2 || buf@.len() < 2 + 6 * (buf@[0] + 256 * buf@[1]),
    {
        let len = buf.len();
        if len < 2 {
            proof {
                assert forall|v: Self| #[trigger]
                    v.well_formed() && v.wire().is_prefix_of(buf@) implies false by {
                    v.lemma_fields(buf@);
                }
            }
            return Err(CodecError::Underrun);
        }
        let count = read_u16(buf, 0);
        if len - 2 < 6 * (count as usize) {
            proof {
                assert forall|v: Self| #[trigger]
                    v.well_formed() && v.wire().is_prefix_of(buf@) implies false by {
                    v.lemma_fields(buf@);
                    lemma_le_u16_injective(count, v.fixtures_state@.len() as u16);
                }
            }
            return Err(CodecError::Underrun);
        }
        let mut states: Vec<FixtureState> = Vec::new();
        let mut i: usize = 0;
        while i < count as usize
            invariant
                i <= count,
                2 + 6 * count <= len == buf@.len(),
                states@.len() == i,
                forall|k: int|
                    0 <= k < i ==> (#[trigger] states@[k]).wire() == buf@.subrange(
                        2 + 6 * k,
                        8 + 6 * k,
                    ),
            decreases count - i,
        {
            let st = read_state_at(buf, 2 + 6 * i);
            states.push(st);
            i += 1;
        }
        let r = FixtureConsoleStatus { fixture_count: count, fixtures_state: states };
        proof {
            let n = count as int;
            assert forall|j: int| 0 <= j < 6 * n implies #[trigger] states_wire(r.fixtures_state@)[j]
                == buf@[2 + j] by {
                let k = j / 6;
                assert(0 <= k < n);
                assert(r.fixtures_state@[k].wire()[j % 6] == buf@.subrange(2 + 6 * k, 8 + 6 * k)[j
                    % 6]);
            }
            assert(states_wire(r.fixtures_state@) =~= buf@.subrange(2, 2 + 6 * n));
            assert(r.wire() =~= buf@.subrange(0, 2 + 6 * n));
            assert forall|v: Self| #[trigger]
                v.well_formed() && v.wire().is_prefix_of(buf@) implies v@ == r@ by {
                Self::lemma_unique(v, r, buf@);
            }
        }
        Ok(r)
    }
}

/// Patch and placement information of one fixture.
#[derive(Clone, Debug, PartialEq, Eq, Hash)]
pub struct FixtureInfo {
    /// A boolean 0x00 or 0x01 indicating whether the fixture is patched or not.
    pub patched: u8,
    /// The (0-based) universe index.
    pub universe: u8,
    /// The (0-based) DMX channel.
    pub universe_channel: u16,
    /// The unit number.
    pub unit: Ucs2,
    /// The channel number.
    pub channel: u16,
    /// The circuit number.
    pub circuit: Ucs2,
    /// Any notes.
    pub note: Ucs2,
    /// The 3D position, as the bit patterns of three IEEE-754 single-precision numbers.
    pub position: [u32; 3],
    /// The 3D angles, as the bit patterns of three IEEE-754 single-precision numbers.
    pub angles: [u32; 3],
}

/// The wire form of three 32-bit values.
pub open spec fn triple_wire(a: Seq<u32>) -> Seq<u8> {
    le_u32(a[0]) + le_u32(a[1]) + le_u32(a[2])
}

fn push_triple(out: &mut Vec<u8>, a: &[u32; 3])
    ensures
        final(out)@ == old(out)@ + triple_wire(a@),
{
    let ghost start = out@;
    push_u32(out, a[0]);
    push_u32(out, a[1]);
    push_u32(out, a[2]);
    assert(out@ =~= start + triple_wire(a@));
}

impl View for FixtureInfo {
    /// Patched flag, universe and universe channel; unit; channel; circuit; note; position;
    /// angles.
    type V = ((u8, u8, u16), Seq<u16>, u16, Seq<u16>, Seq<u16>, Seq<u32>, Seq<u32>);

    open spec fn view(&self) -> Self::V {
        (
            (self.patched, self.universe, self.universe_channel),
            self.unit@,
            self.channel,
            self.circuit@,
            self.note@,
            self.position@,
            self.angles@,
        )
    }
}

impl FixtureInfo {
    /// The patched flag, the universe and the universe channel.
    pub open spec fn head_wire(&self) -> Seq<u8> {
        seq![self.patched, self.universe] + le_u16(self.universe_channel)
    }

    /// The position, then the angles.
    pub open spec fn pose_wire(&self) -> Seq<u8> {
        triple_wire(self.position@) + triple_wire(self.angles@)
    }

    /// The wire form from the note on.
    pub open spec fn from_note_wire(&self) -> Seq<u8> {
        self.note.wire() + self.pose_wire()
    }

    /// The wire form from the circuit on.
    pub open spec fn from_circuit_wire(&self) -> Seq<u8> {
        self.circuit.wire() + self.from_note_wire()
    }

    /// The wire form from the channel on.
    pub open spec fn from_channel_wire(&self) -> Seq<u8> {
        le_u16(self.channel) + self.from_circuit_wire()
    }

    /// The wire form from the unit on.
    pub open spec fn from_unit_wire(&self) -> Seq<u8> {
        self.unit.wire() + self.from_channel_wire()
    }
}

impl WriteToBytes for FixtureInfo {
    /// Fields in declared order: flags and universe channel, unit, channel, circuit, note,
    /// position, angles.
    open spec fn wire(&self) -> Seq<u8> {
        self.head_wire() + self.from_unit_wire()
    }

    fn write_to_bytes(&self, out: &mut Vec<u8>) {
        let ghost start = out@;
        out.push(self.patched);
        out.push(self.universe);
        push_u16(out, self.universe_channel);
        assert(out@ =~= start + self.head_wire());
        self.unit.write_to_bytes(out);
        push_u16(out, self.channel);
        self.circuit.write_to_bytes(out);
        self.note.write_to_bytes(out);
        let ghost mid = out@;
        push_triple(out, &self.position);
        push_triple(out, &self.angles);
        assert(out@ =~= mid + self.pose_wire());
        assert(out@ =~= start + self.wire());
    }
}

impl SizeBytes for FixtureInfo {
    open spec fn spec_size(&self) -> nat {
        30 + self.unit.spec_size() + self.circuit.spec_size() + self.note.spec_size()
    }

    proof fn lemma_size(&self) {
        self.unit.lemma_size();
        self.circuit.lemma_size();
        self.note.lemma_size();
    }

    fn size_bytes(&self) -> (r: usize) {
        30 + self.unit.size_bytes() + self.circuit.size_bytes() + self.note.size_bytes()
    }
}

proof fn lemma_triple_injective(x: Seq<u32>, y: Seq<u32>)
    requires
        x.len() == 3,
        y.len() == 3,
        triple_wire(x) == triple_wire(y),
    ensures
        x == y,
{
    assert(triple_wire(x).subrange(0, 4) =~= le_u32(x[0]));
    assert(triple_wire(y).subrange(0, 4) =~= le_u32(y[0]));
    assert(triple_wire(x).subrange(4, 8) =~= le_u32(x[1]));
    assert(triple_wire(y).subrange(4, 8) =~= le_u32(y[1]));
    assert(triple_wire(x).subrange(8, 12) =~= le_u32(x[2]));
    assert(triple_wire(y).subrange(8, 12) =~= le_u32(y[2]));
    lemma_le_u32_injective(x[0], y[0]);
    lemma_le_u32_injective(x[1], y[1]);
    lemma_le_u32_injective(x[2], y[2]);
    assert(x =~= y);
}

impl FixtureInfo {
    /// Where the channel field starts on the wire.
    pub open spec fn channel_at(&self) -> int {
        4 + self.unit.wire().len() as int
    }

    /// Where the circuit string starts on the wire.
    pub open spec fn circuit_at(&self) -> int {
        self.channel_at() + 2
    }

    /// Where the note string starts on the wire.
    pub open spec fn note_at(&self) -> int {
        self.circuit_at() + self.circuit.wire().len()
    }

    /// Where the position and angles start on the wire.
    pub open spec fn triples_at(&self) -> int {
        self.note_at() + self.note.wire().len()
    }

    /// Where the wire form leads `buf`, each field leads the bytes from its place on.
    proof fn lemma_fields(&self, buf: Seq<u8>)
        requires
            self.wire().is_prefix_of(buf),
        ensures
            self.triples_at() + 24 <= buf.len(),
            self.head_wire().is_prefix_of(buf),
            self.unit.wire().is_prefix_of(buf.skip(4)),
            le_u16(self.channel).is_prefix_of(buf.skip(self.channel_at())),
            self.circuit.wire().is_prefix_of(buf.skip(self.circuit_at())),
            self.note.wire().is_prefix_of(buf.skip(self.note_at())),
            triple_wire(self.position@).is_prefix_of(buf.skip(self.triples_at())),
            triple_wire(self.angles@).is_prefix_of(buf.skip(self.triples_at() + 12)),
    {
        self.lemma_wire_len();
        self.lemma_pieces(buf);
    }

    /// Where a well-formed record leads `buf`, each of its strings ends at the first zero
    /// unit from its start.
    proof fn lemma_leads_ends(&self, buf: Seq<u8>)
        requires
            self.well_formed(),
            self.wire().is_prefix_of(buf),
        ensures
            self.triples_at() + 24 <= buf.len(),
            has_terminator(buf.skip(4)),
            self.channel_at() == 4 + 2 * terminated_len(buf.skip(4)) + 2,
            has_terminator(buf.skip(self.circuit_at())),
            self.note_at() == self.circuit_at() + 2 * terminated_len(buf.skip(self.circuit_at()))
                + 2,
            has_terminator(buf.skip(self.note_at())),
            self.triples_at() == self.note_at() + 2 * terminated_len(buf.skip(self.note_at())) + 2,
    {
        self.lemma_fields(buf);
        lemma_leads_terminated(self.unit@, buf.skip(4));
        lemma_leads_terminated(self.circuit@, buf.skip(self.circuit_at()));
        lemma_leads_terminated(self.note@, buf.skip(self.note_at()));
    }

    proof fn lemma_wire_len(&self)
        ensures
            self.wire().len() == self.triples_at() + 24,
    {
    }

    /// Within a buffer that is long enough, the wire form leads it exactly when each field
    /// leads the bytes from its place on.
    proof fn lemma_pieces(&self, buf: Seq<u8>)
        requires
            self.triples_at() + 24 <= buf.len(),
        ensures
            self.wire().is_prefix_of(buf) <==> {
                &&& self.head_wire().is_prefix_of(buf)
                &&& self.unit.wire().is_prefix_of(buf.skip(4))
                &&& le_u16(self.channel).is_prefix_of(buf.skip(self.channel_at()))
                &&& self.circuit.wire().is_prefix_of(buf.skip(self.circuit_at()))
                &&& self.note.wire().is_prefix_of(buf.skip(self.note_at()))
                &&& triple_wire(self.position@).is_prefix_of(buf.skip(self.triples_at()))
                &&& triple_wire(self.angles@).is_prefix_of(buf.skip(self.triples_at() + 12))
            },
    {
        let o1 = self.channel_at();
        let o2 = self.circuit_at();
        let o3 = self.note_at();
        let o4 = self.triples_at();
        lemma_prefix_concat(self.head_wire(), self.from_unit_wire(), buf);
        lemma_prefix_concat(self.unit.wire(), self.from_channel_wire(), buf.skip(4));
        assert(buf.skip(4).skip(self.unit.wire().len() as int) =~= buf.skip(o1));
        lemma_prefix_concat(le_u16(self.channel), self.from_circuit_wire(), buf.skip(o1));
        assert(buf.skip(o1).skip(2) =~= buf.skip(o2));
        lemma_prefix_concat(self.circuit.wire(), self.from_note_wire(), buf.skip(o2));
        assert(buf.skip(o2).skip(self.circuit.wire().len() as int) =~= buf.skip(o3));
        lemma_prefix_concat(self.note.wire(), self.pose_wire(), buf.skip(o3));
        assert(buf.skip(o3).skip(self.note.wire().len() as int) =~= buf.skip(o4));
        lemma_prefix_concat(triple_wire(self.position@), triple_wire(self.angles@), buf.skip(o4));
        assert(buf.skip(o4).skip(12) =~= buf.skip(o4 + 12));
    }
}

impl ReadFromBytes for FixtureInfo {
    /// No string holds a zero unit.
    open spec fn well_formed(&self) -> bool {
        self.unit.well_formed() && self.circuit.well_formed() && self.note.well_formed()
    }

    /// An underrun where a fixed field does not fit, a malformed string where a string
    /// lacks its terminator.
    open spec fn read_error(buf: Seq<u8>) -> CodecError {
        if buf.len() < 4 {
            CodecError::Underrun
        } else if !has_terminator(buf.skip(4)) {
            CodecError::MalformedString
        } else {
            let o1: int = 4 + 2 * terminated_len(buf.skip(4)) as int + 2;
            let o2: int = o1 + 2;
            if buf.len() < o2 {
                CodecError::Underrun
            } else if !has_terminator(buf.skip(o2)) {
                CodecError::MalformedString
            } else if !has_terminator(buf.skip(o2 + 2 * terminated_len(buf.skip(o2)) + 2)) {
                CodecError::MalformedString
            } else {
                CodecError::Underrun
            }
        }
    }

    proof fn lemma_unique(a: Self, b: Self, buf: Seq<u8>) {
        a.lemma_fields(buf);
        b.lemma_fields(buf);
        assert(a.head_wire() =~= b.head_wire());
        assert(a.head_wire()[0] == a.patched && a.head_wire()[1] == a.universe);
        assert(b.head_wire()[0] == b.patched && b.head_wire()[1] == b.universe);
        assert(a.head_wire().subrange(2, 4) =~= le_u16(a.universe_channel));
        assert(b.head_wire().subrange(2, 4) =~= le_u16(b.universe_channel));
        lemma_le_u16_injective(a.universe_channel, b.universe_channel);
        Ucs2::lemma_unique(a.unit, b.unit, buf.skip(4));
        assert(le_u16(a.channel) =~= le_u16(b.channel));
        lemma_le_u16_injective(a.channel, b.channel);
        Ucs2::lemma_unique(a.circuit, b.circuit, buf.skip(a.circuit_at()));
        Ucs2::lemma_unique(a.note, b.note, buf.skip(a.note_at()));
        assert(triple_wire(a.position@) =~= triple_wire(b.position@));
        assert(triple_wire(a.angles@) =~= triple_wire(b.angles@));
        lemma_triple_injective(a.position@, b.position@);
        lemma_triple_injective(a.angles@, b.angles@);
    }

    #[verifier::rlimit(100)]
    fn read_from_bytes(buf: &[u8]) -> (r: Result<Self, CodecError>) {
        let len = buf.len();
        if len < 4 {
            proof {
                assert forall|v: Self| #[trigger]
                    v.well_formed() && v.wire().is_prefix_of(buf@) implies false by {
                    v.lemma_fields(buf@);
                }
            }
            return Err(CodecError::Underrun);
        }
        let patched = buf[0];
        let universe = buf[1];
        let universe_channel = read_u16(buf, 2);
        let s1 = vstd::slice::slice_subrange(buf, 4, len);
        assert(s1@ =~= buf@.skip(4));
        let unit = match Ucs2::read_from_bytes(s1) {
            Ok(u) => u,
            Err(e) => {
                proof {
                    assert forall|v: Self| #[trigger]
                        v.well_formed() && v.wire().is_prefix_of(buf@) implies false by {
                        v.lemma_leads_ends(buf@);
                    }
                }
                return Err(e);
            },
        };
        proof {
            unit.lemma_size();
        }
        let o1 = 4 + unit.size_bytes();
        assert(o1 == 4 + 2 * terminated_len(buf@.skip(4)) + 2);
        if len - o1 < 2 {
            proof {
                assert forall|v: Self| #[trigger]
                    v.well_formed() && v.wire().is_prefix_of(buf@) implies false by {
                    v.lemma_leads_ends(buf@);
                }
            }
            return Err(CodecError::Underrun);
        }
        let channel = read_u16(buf, o1);
        let o2 = o1 + 2;
        let s2 = vstd::slice::slice_subrange(buf, o2, len);
        assert(s2@ =~= buf@.skip(o2 as int));
        let circuit = match Ucs2::read_from_bytes(s2) {
            Ok(c) => c,
            Err(e) => {
                proof {
                    assert forall|v: Self| #[trigger]
                        v.well_formed() && v.wire().is_prefix_of(buf@) implies false by {
                        v.lemma_leads_ends(buf@);
                    }
                }
                return Err(e);
            },
        };
        proof {
            circuit.lemma_size();
        }
        let o3 = o2 + circuit.size_bytes();
        assert(o3 == o2 + 2 * terminated_len(buf@.skip(o2 as int)) + 2);
        let s3 = vstd::slice::slice_subrange(buf, o3, len);
        assert(s3@ =~= buf@.skip(o3 as int));
        let note = match Ucs2::read_from_bytes(s3) {
            Ok(n) => n,
            Err(e) => {
                proof {
                    assert forall|v: Self| #[trigger]
                        v.well_formed() && v.wire().is_prefix_of(buf@) implies false by {
                        v.lemma_leads_ends(buf@);
                    }
                }
                return Err(e);
            },
        };
        proof {
            note.lemma_size();
        }
        let o4 = o3 + note.size_bytes();
        if len - o4 < 24 {
            proof {
                assert forall|v: Self| #[trigger]
                    v.well_formed() && v.wire().is_prefix_of(buf@) implies false by {
                    v.lemma_leads_ends(buf@);
                }
            }
            return Err(CodecError::Underrun);
        }
        let position = [read_u32(buf, o4), read_u32(buf, o4 + 4), read_u32(buf, o4 + 8)];
        let angles = [read_u32(buf, o4 + 12), read_u32(buf, o4 + 16), read_u32(buf, o4 + 20)];
        let r = FixtureInfo {
            patched,
            universe,
            universe_channel,
            unit,
            channel,
            circuit,
            note,
            position,
            angles,
        };
        proof {
            assert(r.head_wire()[0] == buf@[0] && r.head_wire()[1] == buf@[1]);
            assert(r.head_wire().subrange(2, 4) =~= le_u16(universe_channel));
            assert(r.head_wire() =~= buf@.subrange(0, 4));
            r.lemma_wire_len();
            assert(le_u16(channel) =~= buf@.skip(o1 as int).subrange(0, 2));
            assert(triple_wire(position@) =~= buf@.skip(o4 as int).subrange(0, 12));
            assert(triple_wire(angles@) =~= buf@.skip(o4 + 12).subrange(0, 12));
            r.lemma_pieces(buf@);
            assert forall|v: Self| #[trigger]
                v.well_formed() && v.wire().is_prefix_of(buf@) implies v@ == r@ by {
                Self::lemma_unique(v, r, buf@);
            }
        }
        Ok(r)
    }
}

} // verus!
