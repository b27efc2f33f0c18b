//! Two-layer dispatch: the base header selects the CAEX module, the CAEX content type
//! selects the body, and the base header's message size delimits the frame.
use vstd::prelude::*;

use crate::caex::{
    EnterShow, FixtureConsoleStatus, FixtureListRequest, FixtureRemove, FixtureState,
    GetLaserFeedList, Header, LaserFeedControl, LaserFeedFrame, LaserFeedList, LaserPoint,
    LeaveShow, Message, CAEX_TAG,
};
use crate::caex::lemma_caex_tag_bytes;
use crate::codec::{
    le_u32, lemma_le_u32_injective, lemma_le_u32_value, lemma_prefix_concat, u32_at, CodecError,
    ReadFromBytes, SizeBytes, WriteToBytes,
};

verus! {

/// A CAEX message body of any known kind.
#[derive(Clone, Debug, PartialEq, Eq, Hash)]
pub enum CaexBody {
    EnterShow(EnterShow),
    LeaveShow(LeaveShow),
    FixtureListRequest(FixtureListRequest),
    FixtureRemove(FixtureRemove),
    FixtureConsoleStatus(FixtureConsoleStatus),
    GetLaserFeedList(GetLaserFeedList),
    LaserFeedList(LaserFeedList),
    LaserFeedControl(LaserFeedControl),
    LaserFeedFrame(LaserFeedFrame),
}

/// The view of a body: its kind and the view of the message it holds.
pub enum CaexBodyView {
    EnterShow(Seq<u16>),
    LeaveShow,
    FixtureListRequest,
    FixtureRemove((u16, Seq<u32>)),
    FixtureConsoleStatus((u16, Seq<FixtureState>)),
    GetLaserFeedList,
    LaserFeedList((u32, u8, Seq<Seq<u16>>)),
    LaserFeedControl(LaserFeedControl),
    LaserFeedFrame((u32, u8, u32, u16, Seq<LaserPoint>)),
}

/// The CAEX content types that select a known body.
pub open spec fn known_content_type(t: u32) -> bool {
    ||| t == EnterShow::CONTENT_TYPE
    ||| t == LeaveShow::CONTENT_TYPE
    ||| t == FixtureListRequest::CONTENT_TYPE
    ||| t == FixtureRemove::CONTENT_TYPE
    ||| t == FixtureConsoleStatus::CONTENT_TYPE
    ||| t == GetLaserFeedList::CONTENT_TYPE
    ||| t == LaserFeedList::CONTENT_TYPE
    ||| t == LaserFeedControl::CONTENT_TYPE
    ||| t == LaserFeedFrame::CONTENT_TYPE
}

impl View for CaexBody {
    type V = CaexBodyView;

    open spec fn view(&self) -> CaexBodyView {
        match self {
            CaexBody::EnterShow(m) => CaexBodyView::EnterShow(m@),
            CaexBody::LeaveShow(_) => CaexBodyView::LeaveShow,
            CaexBody::FixtureListRequest(_) => CaexBodyView::FixtureListRequest,
            CaexBody::FixtureRemove(m) => CaexBodyView::FixtureRemove(m@),
            CaexBody::FixtureConsoleStatus(m) => CaexBodyView::FixtureConsoleStatus(m@),
            CaexBody::GetLaserFeedList(_) => CaexBodyView::GetLaserFeedList,
            CaexBody::LaserFeedList(m) => CaexBodyView::LaserFeedList(m@),
            CaexBody::LaserFeedControl(m) => CaexBodyView::LaserFeedControl(m@),
            CaexBody::LaserFeedFrame(m) => CaexBodyView::LaserFeedFrame(m@),
        }
    }
}

impl CaexBody {
    /// The CAEX content type of the body's kind.
    pub open spec fn spec_content_type(&self) -> u32 {
        match self {
            CaexBody::EnterShow(_) => EnterShow::CONTENT_TYPE,
            CaexBody::LeaveShow(_) => LeaveShow::CONTENT_TYPE,
            CaexBody::FixtureListRequest(_) => FixtureListRequest::CONTENT_TYPE,
            CaexBody::FixtureRemove(_) => FixtureRemove::CONTENT_TYPE,
            CaexBody::FixtureConsoleStatus(_) => FixtureConsoleStatus::CONTENT_TYPE,
            CaexBody::GetLaserFeedList(_) => GetLaserFeedList::CONTENT_TYPE,
            CaexBody::LaserFeedList(_) => LaserFeedList::CONTENT_TYPE,
            CaexBody::LaserFeedControl(_) => LaserFeedControl::CONTENT_TYPE,
            CaexBody::LaserFeedFrame(_) => LaserFeedFrame::CONTENT_TYPE,
        }
    }

    pub fn content_type(&self) -> (r: u32)
        ensures
            r == self.spec_content_type(),
    {
        match self {
            CaexBody::EnterShow(_) => EnterShow::CONTENT_TYPE,
            CaexBody::LeaveShow(_) => LeaveShow::CONTENT_TYPE,
            CaexBody::FixtureListRequest(_) => FixtureListRequest::CONTENT_TYPE,
            CaexBody::FixtureRemove(_) => FixtureRemove::CONTENT_TYPE,
            CaexBody::FixtureConsoleStatus(_) => FixtureConsoleStatus::CONTENT_TYPE,
            CaexBody::GetLaserFeedList(_) => GetLaserFeedList::CONTENT_TYPE,
            CaexBody::LaserFeedList(_) => LaserFeedList::CONTENT_TYPE,
            CaexBody::LaserFeedControl(_) => LaserFeedControl::CONTENT_TYPE,
            CaexBody::LaserFeedFrame(_) => LaserFeedFrame::CONTENT_TYPE,
        }
    }

    /// The message held is well formed.
    pub open spec fn well_formed(&self) -> bool {
        match self {
            CaexBody::EnterShow(m) => m.well_formed(),
            CaexBody::LeaveShow(m) => m.well_formed(),
            CaexBody::FixtureListRequest(m) => m.well_formed(),
            CaexBody::FixtureRemove(m) => m.well_formed(),
            CaexBody::FixtureConsoleStatus(m) => m.well_formed(),
            CaexBody::GetLaserFeedList(m) => m.well_formed(),
            CaexBody::LaserFeedList(m) => m.well_formed(),
            CaexBody::LaserFeedControl(m) => m.well_formed(),
            CaexBody::LaserFeedFrame(m) => m.well_formed(),
        }
    }

    /// The error that decoding a body of kind `t` from `buf` reports when it fails.
    pub open spec fn read_error(t: u32, buf: Seq<u8>) -> CodecError {
        if t == EnterShow::CONTENT_TYPE {
            EnterShow::read_error(buf)
        } else if t == LeaveShow::CONTENT_TYPE {
            LeaveShow::read_error(buf)
        } else if t == FixtureListRequest::CONTENT_TYPE {
            FixtureListRequest::read_error(buf)
        } else if t == FixtureRemove::CONTENT_TYPE {
            FixtureRemove::read_error(buf)
        } else if t == FixtureConsoleStatus::CONTENT_TYPE {
            FixtureConsoleStatus::read_error(buf)
        } else if t == GetLaserFeedList::CONTENT_TYPE {
            GetLaserFeedList::read_error(buf)
        } else if t == LaserFeedList::CONTENT_TYPE {
            LaserFeedList::read_error(buf)
        } else if t == LaserFeedControl::CONTENT_TYPE {
            LaserFeedControl::read_error(buf)
        } else if t == LaserFeedFrame::CONTENT_TYPE {
            LaserFeedFrame::read_error(buf)
        } else {
            CodecError::UnrecognizedDiscriminant
        }
    }
}

impl WriteToBytes for CaexBody {
    open spec fn wire(&self) -> Seq<u8> {
        match self {
            CaexBody::EnterShow(m) => m.wire(),
            CaexBody::LeaveShow(m) => m.wire(),
            CaexBody::FixtureListRequest(m) => m.wire(),
            CaexBody::FixtureRemove(m) => m.wire(),
            CaexBody::FixtureConsoleStatus(m) => m.wire(),
            CaexBody::GetLaserFeedList(m) => m.wire(),
            CaexBody::LaserFeedList(m) => m.wire(),
            CaexBody::LaserFeedControl(m) => m.wire(),
            CaexBody::LaserFeedFrame(m) => m.wire(),
        }
    }

    fn write_to_bytes(&self, out: &mut Vec<u8>) {
        match self {
            CaexBody::EnterShow(m) => m.write_to_bytes(out),
            CaexBody::LeaveShow(m) => m.write_to_bytes(out),
            CaexBody::FixtureListRequest(m) => m.write_to_bytes(out),
            CaexBody::FixtureRemove(m) => m.write_to_bytes(out),
            CaexBody::FixtureConsoleStatus(m) => m.write_to_bytes(out),
            CaexBody::GetLaserFeedList(m) => m.write_to_bytes(out),
            CaexBody::LaserFeedList(m) => m.write_to_bytes(out),
            CaexBody::LaserFeedControl(m) => m.write_to_bytes(out),
            CaexBody::LaserFeedFrame(m) => m.write_to_bytes(out),
        }
    }
}

impl SizeBytes for CaexBody {
    open spec fn spec_size(&self) -> nat {
        match self {
            CaexBody::EnterShow(m) => m.spec_size(),
            CaexBody::LeaveShow(m) => m.spec_size(),
            CaexBody::FixtureListRequest(m) => m.spec_size(),
            CaexBody::FixtureRemove(m) => m.spec_size(),
            CaexBody::FixtureConsoleStatus(m) => m.spec_size(),
            CaexBody::GetLaserFeedList(m) => m.spec_size(),
            CaexBody::LaserFeedList(m) => m.spec_size(),
            CaexBody::LaserFeedControl(m) => m.spec_size(),
            CaexBody::LaserFeedFrame(m) => m.spec_size(),
        }
    }

    proof fn lemma_size(&self) {
        match self {
            CaexBody::EnterShow(m) => m.lemma_size(),
            CaexBody::LeaveShow(m) => m.lemma_size(),
            CaexBody::FixtureListRequest(m) => m.lemma_size(),
            CaexBody::FixtureRemove(m) => m.lemma_size(),
            CaexBody::FixtureConsoleStatus(m) => m.lemma_size(),
            CaexBody::GetLaserFeedList(m) => m.lemma_size(),
            CaexBody::LaserFeedList(m) => m.lemma_size(),
            CaexBody::LaserFeedControl(m) => m.lemma_size(),
            CaexBody::LaserFeedFrame(m) => m.lemma_size(),
        }
    }

    fn size_bytes(&self) -> (r: usize) {
        match self {
            CaexBody::EnterShow(m) => m.size_bytes(),
            CaexBody::LeaveShow(m) => m.size_bytes(),
            CaexBody::FixtureListRequest(m) => m.size_bytes(),
            CaexBody::FixtureRemove(m) => m.size_bytes(),
            CaexBody::FixtureConsoleStatus(m) => m.size_bytes(),
            CaexBody::GetLaserFeedList(m) => m.size_bytes(),
            CaexBody::LaserFeedList(m) => m.size_bytes(),
            CaexBody::LaserFeedControl(m) => m.size_bytes(),
            CaexBody::LaserFeedFrame(m) => m.size_bytes(),
        }
    }
}

/// `b` is a well-formed body of kind `t` whose wire form leads `buf`.
pub open spec fn body_leads(t: u32, buf: Seq<u8>, b: CaexBody) -> bool {
    b.spec_content_type() == t && b.well_formed() && b.wire().is_prefix_of(buf)
}

impl CaexBody {
    /// Decodes a body of the kind that the CAEX content type `t` selects.
    pub fn read_from_bytes(t: u32, buf: &[u8]) -> (r: Result<CaexBody, CodecError>)
        ensures
            r is Ok ==> body_leads(t, buf@, r->Ok_0),
            forall|b: CaexBody| #[trigger] body_leads(t, buf@, b) ==> r is Ok && r->Ok_0@ == b@,
            r is Err ==> r->Err_0 == CaexBody::read_error(t, buf@),
            !known_content_type(t) ==> r is Err,
    {
        if t == EnterShow::CONTENT_TYPE {
            match EnterShow::read_from_bytes(buf) {
                Ok(m) => Ok(CaexBody::EnterShow(m)),
                Err(e) => Err(e),
            }
        } else if t == LeaveShow::CONTENT_TYPE {
            match LeaveShow::read_from_bytes(buf) {
                Ok(m) => Ok(CaexBody::LeaveShow(m)),
                Err(e) => Err(e),
            }
        } else if t == FixtureListRequest::CONTENT_TYPE {
            match FixtureListRequest::read_from_bytes(buf) {
                Ok(m) => Ok(CaexBody::FixtureListRequest(m)),
                Err(e) => Err(e),
            }
        } else if t == FixtureRemove::CONTENT_TYPE {
            match FixtureRemove::read_from_bytes(buf) {
                Ok(m) => Ok(CaexBody::FixtureRemove(m)),
                Err(e) => Err(e),
            }
        } else if t == FixtureConsoleStatus::CONTENT_TYPE {
            match FixtureConsoleStatus::read_from_bytes(buf) {
                Ok(m) => Ok(CaexBody::FixtureConsoleStatus(m)),
                Err(e) => Err(e),
            }
        } else if t == GetLaserFeedList::CONTENT_TYPE {
            match GetLaserFeedList::read_from_bytes(buf) {
                Ok(m) => Ok(CaexBody::GetLaserFeedList(m)),
                Err(e) => Err(e),
            }
        } else if t == LaserFeedList::CONTENT_TYPE {
            match LaserFeedList::read_from_bytes(buf) {
                Ok(m) => Ok(CaexBody::LaserFeedList(m)),
                Err(e) => Err(e),
            }
        } else if t == LaserFeedControl::CONTENT_TYPE {
            match LaserFeedControl::read_from_bytes(buf) {
                Ok(m) => Ok(CaexBody::LaserFeedControl(m)),
                Err(e) => Err(e),
            }
        } else if t == LaserFeedFrame::CONTENT_TYPE {
            match LaserFeedFrame::read_from_bytes(buf) {
                Ok(m) => Ok(CaexBody::LaserFeedFrame(m)),
                Err(e) => Err(e),
            }
        } else {
            Err(CodecError::UnrecognizedDiscriminant)
        }
    }
}

/// `m` is a complete CAEX message at the front of `buf`: its header leads `buf` and names
/// the CAEX module, its message size fits within `buf` and covers both headers, and its body
/// is a well-formed body of the kind that the header names, leading the bytes after the
/// headers and within the message size.
#[verifier::opaque]
pub open spec fn frames(buf: Seq<u8>, m: Message<CaexBody>) -> bool {
    let size = m.caex_header.citp_header.message_size as int;
    &&& m.caex_header.wire().is_prefix_of(buf)
    &&& m.caex_header.citp_header.content_type == CAEX_TAG
    &&& 24 <= size <= buf.len()
    &&& body_leads(m.caex_header.content_type, buf.subrange(24, size), m.message)
}

/// The error that decoding a frame from `buf` reports when it fails.
pub open spec fn frame_error(buf: Seq<u8>) -> CodecError {
    if buf.len() < 24 {
        CodecError::Underrun
    } else if buf.subrange(16, 20) != Header::CONTENT_TYPE@ {
        CodecError::UnrecognizedDiscriminant
    } else if u32_at(buf, 8) < 24 || u32_at(buf, 8) > buf.len() {
        CodecError::Underrun
    } else {
        CaexBody::read_error(u32_at(buf, 20) as u32, buf.subrange(24, u32_at(buf, 8)))
    }
}

/// Decodes the CAEX message at the front of `buf`, and gives the number of bytes it takes,
/// which is the message size that its base header declares.
pub fn read_frame(buf: &[u8]) -> (r: Result<(Message<CaexBody>, usize), CodecError>)
    ensures
        r is Ok ==> frames(buf@, r->Ok_0.0) && r->Ok_0.1 == r->Ok_0.0.caex_header.citp_header.message_size,
        forall|m: Message<CaexBody>| #[trigger] frames(buf@, m) ==> r is Ok && r->Ok_0.0@ == m@,
        r is Err ==> r->Err_0 == frame_error(buf@),
{
    reveal(frames);
    let header = match Header::read_from_bytes(buf) {
        Ok(h) => h,
        Err(e) => {
            return Err(e);
        },
    };
    proof {
        header.lemma_fields(buf@);
        header.citp_header.lemma_fields(buf@);
        lemma_le_u32_value(header.citp_header.message_size, buf@, 8);
        lemma_le_u32_value(header.content_type, buf@, 20);
        lemma_caex_tag_bytes();
        assert forall|m: Message<CaexBody>| #[trigger] frames(buf@, m) implies m.caex_header
            == header by {
            Header::lemma_unique(m.caex_header, header, buf@);
        }
    }
    if header.citp_header.content_type != CAEX_TAG {
        proof {
            if buf@.subrange(16, 20) == Header::CONTENT_TYPE@ {
                lemma_le_u32_injective(header.citp_header.content_type, CAEX_TAG);
            }
        }
        return Err(CodecError::UnrecognizedDiscriminant);
    }
    let size = header.citp_header.message_size as usize;
    if size < 24 || size > buf.len() {
        return Err(CodecError::Underrun);
    }
    let body_bytes = vstd::slice::slice_subrange(buf, 24, size);
    match CaexBody::read_from_bytes(header.content_type, body_bytes) {
        Ok(body) => Ok((Message { caex_header: header, message: body }, size)),
        Err(e) => Err(e),
    }
}

/// The message names the CAEX module and the kind of its body, and its header declares
/// exactly the length of its wire form.
pub open spec fn exactly_framed(m: Message<CaexBody>) -> bool {
    &&& m.caex_header.citp_header.content_type == CAEX_TAG
    &&& m.caex_header.content_type == m.message.spec_content_type()
    &&& m.caex_header.citp_header.message_size == m.wire().len()
}

/// A message with a well-formed body that declares its own length frames any buffer that
/// it leads.
pub proof fn lemma_exactly_framed(m: Message<CaexBody>, rest: Seq<u8>)
    requires
        exactly_framed(m),
        m.message.well_formed(),
    ensures
        frames(m.wire() + rest, m),
{
    reveal(frames);
    let buf = m.wire() + rest;
    lemma_prefix_concat(m.caex_header.wire(), m.message.wire(), buf);
    assert(m.caex_header.wire().len() == 24);
    assert(buf.subrange(24, m.wire().len() as int) =~= m.message.wire());
}

impl Message<CaexBody> {
    /// Wraps a body in a single-part header that names its kind and declares the size of
    /// the whole message.
    pub fn from_body(body: CaexBody) -> (r: Message<CaexBody>)
        requires
            body.spec_size() + 24 <= u32::MAX,
        ensures
            exactly_framed(r),
            r.message == body,
            r.caex_header == Header::for_body_spec(body.spec_content_type(), body.spec_size()),
    {
        proof {
            body.lemma_size();
        }
        let t = body.content_type();
        let r = Message::new(t, body);
        proof {
            r.lemma_size();
            r.caex_header.lemma_size();
        }
        r
    }
}

/// Framing: of two messages that each declare their own length, written back to back, the
/// first frames the buffer and takes exactly its declared size, and what follows it is the
/// second, which frames it in turn. With the contract of `read_frame`, decoding recovers the
/// first, and decoding again at its declared size recovers the second unchanged.
pub proof fn lemma_framing(a: Message<CaexBody>, b: Message<CaexBody>)
    requires
        exactly_framed(a),
        a.message.well_formed(),
        exactly_framed(b),
        b.message.well_formed(),
    ensures
        frames(a.wire() + b.wire(), a),
        (a.wire() + b.wire()).skip(a.caex_header.citp_header.message_size as int) == b.wire(),
        frames(b.wire(), b),
{
    lemma_exactly_framed(a, b.wire());
    lemma_exactly_framed(b, Seq::empty());
    assert(b.wire() + Seq::<u8>::empty() =~= b.wire());
    assert((a.wire() + b.wire()).skip(a.wire().len() as int) =~= b.wire());
}

/// The message size that a message's base header declares.
pub open spec fn frame_size(m: Message<CaexBody>) -> int {
    m.caex_header.citp_header.message_size as int
}

/// The messages lie back to back and fill `buf` exactly, each framing the bytes from its
/// start on.
pub open spec fn frames_all(buf: Seq<u8>, ms: Seq<Message<CaexBody>>) -> bool
    decreases ms.len(),
{
    if ms.len() == 0 {
        buf.len() == 0
    } else {
        frames(buf, ms[0]) && frames_all(buf.skip(frame_size(ms[0])), ms.skip(1))
    }
}

/// The two runs of messages have the same length and the same views.
pub open spec fn same_views(a: Seq<Message<CaexBody>>, b: Seq<Message<CaexBody>>) -> bool {
    a.len() == b.len() && forall|i: int| 0 <= i < a.len() ==> #[trigger] a[i]@ == b[i]@
}

/// A framing message takes at least both headers and at most the whole buffer.
proof fn lemma_frames_bounds(x: Seq<u8>, m: Message<CaexBody>)
    requires
        frames(x, m),
    ensures
        24 <= frame_size(m) <= x.len(),
{
    reveal(frames);
}

/// A message frames a buffer exactly when it frames the part of it within its declared size.
proof fn lemma_frames_take(x: Seq<u8>, m: Message<CaexBody>, j: int)
    requires
        frame_size(m) <= j <= x.len(),
    ensures
        frames(x, m) <==> frames(x.take(j), m),
{
    reveal(frames);
    let s = frame_size(m);
    if 24 <= s {
        assert(x.take(j).subrange(24, s) =~= x.subrange(24, s));
        assert(m.caex_header.wire().len() == 24);
        assert(x.take(j).subrange(0, 24) =~= x.subrange(0, 24));
    }
}

/// A run that fills the first `k` bytes, followed by a message that frames the bytes from
/// `k` on, fills the bytes up to the end of that message.
proof fn lemma_frames_all_push(buf: Seq<u8>, ms: Seq<Message<CaexBody>>, k: int, m: Message<CaexBody>)
    requires
        0 <= k,
        k + frame_size(m) <= buf.len(),
        frames_all(buf.take(k), ms),
        frames(buf.skip(k), m),
    ensures
        frames_all(buf.take(k + frame_size(m)), ms.push(m)),
    decreases ms.len(),
{
    let n = frame_size(m);
    if ms.len() == 0 {
        assert(k == 0);
        assert(buf.skip(0) =~= buf);
        lemma_frames_take(buf, m, n);
        let t = ms.push(m);
        assert(t.skip(1) =~= Seq::<Message<CaexBody>>::empty());
        assert(t[0] == m);
        assert(frames_all(buf.take(n).skip(n), t.skip(1)));
    } else {
        let s0 = frame_size(ms[0]);
        assert(frames(buf.take(k), ms[0]));
        lemma_frames_bounds(buf.take(k), ms[0]);
        let t = ms.push(m);
        assert(t[0] == ms[0]);
        assert(t.skip(1) =~= ms.skip(1).push(m));
        lemma_frames_take(buf, ms[0], k);
        lemma_frames_take(buf, ms[0], k + n);
        assert(frames(buf.take(k + n), t[0]));
        let rest = buf.skip(s0);
        assert(buf.take(k).skip(s0) =~= rest.take(k - s0));
        assert(rest.skip(k - s0) =~= buf.skip(k));
        lemma_frames_all_push(rest, ms.skip(1), k - s0, m);
        assert(buf.take(k + n).skip(s0) =~= rest.take(k - s0 + n));
        assert(frames_all(buf.take(k + n).skip(s0), t.skip(1)));
    }
}

/// Decodes every message of a backlog, each at the offset where the one before it ends by
/// its declared size, until the buffer is used up.
pub fn read_frames(buf: &[u8]) -> (r: Result<Vec<Message<CaexBody>>, CodecError>)
    ensures
        r is Ok ==> frames_all(buf@, r->Ok_0@),
        forall|ms: Seq<Message<CaexBody>>| #[trigger]
            frames_all(buf@, ms) ==> r is Ok && same_views(r->Ok_0@, ms),
        r is Err ==> exists|ms: Seq<Message<CaexBody>>, k: int|
            0 <= k < buf@.len() && #[trigger] frames_all(buf@.take(k), ms) && r->Err_0
                == frame_error(buf@.skip(k)),
{
    let len = buf.len();
    let mut out: Vec<Message<CaexBody>> = Vec::new();
    let mut off: usize = 0;
    assert(buf@.take(0).len() == 0);
    assert forall|ms: Seq<Message<CaexBody>>| #[trigger] frames_all(buf@, ms) implies {
        &&& out@.len() <= ms.len()
        &&& same_views(out@, ms.take(out@.len() as int))
        &&& frames_all(buf@.skip(off as int), ms.skip(out@.len() as int))
    } by {
        assert(ms.take(0).len() == 0);
        assert(buf@.skip(0) =~= buf@);
        assert(ms.skip(0) =~= ms);
    }
    while off < len
        invariant
            off <= len == buf@.len(),
            frames_all(buf@.take(off as int), out@),
            forall|ms: Seq<Message<CaexBody>>| #[trigger]
                frames_all(buf@, ms) ==> {
                    &&& out@.len() <= ms.len()
                    &&& same_views(out@, ms.take(out@.len() as int))
                    &&& frames_all(buf@.skip(off as int), ms.skip(out@.len() as int))
                },
        decreases len - off,
    {
        let rest = vstd::slice::slice_subrange(buf, off, len);
        assert(rest@ =~= buf@.skip(off as int));
        match read_frame(rest) {
            Ok((m, n)) => {
                proof {
                    lemma_frames_bounds(rest@, m);
                    lemma_frames_all_push(buf@, out@, off as int, m);
                    assert forall|ms: Seq<Message<CaexBody>>| #[trigger]
                        frames_all(buf@, ms) implies {
                        &&& out@.len() + 1 <= ms.len()
                        &&& same_views(out@.push(m), ms.take(out@.len() as int + 1))
                        &&& frames_all(
                            buf@.skip(off + n),
                            ms.skip(out@.len() as int + 1),
                        )
                    } by {
                        let i = out@.len() as int;
                        let tail = ms.skip(i);
                        assert(tail.len() > 0);
                        assert(tail[0] == ms[i]);
                        assert(m@ == ms[i]@);
                        assert(tail.skip(1) =~= ms.skip(i + 1));
                        assert(rest@.skip(n as int) =~= buf@.skip(off + n));
                        assert forall|j: int| 0 <= j < i + 1 implies #[trigger] out@.push(m)[j]@
                            == ms.take(i + 1)[j]@ by {
                            if j < i {
                                assert(out@[j]@ == ms.take(i)[j]@);
                            }
                        }
                    }
                }
                out.push(m);
                off = off + n;
            },
            Err(e) => {
                proof {
                    assert forall|ms: Seq<Message<CaexBody>>| #[trigger]
                        frames_all(buf@, ms) implies false by {
                        let i = out@.len() as int;
                        let tail = ms.skip(i);
                        assert(tail.len() > 0);
                        assert(tail[0] == ms[i]);
                        assert(frames(rest@, ms[i]));
                    }
                    assert(frames_all(buf@.take(off as int), out@));
                }
                return Err(e);
            },
        }
    }
    proof {
        assert(buf@.take(off as int) =~= buf@);
        assert forall|ms: Seq<Message<CaexBody>>| #[trigger]
            frames_all(buf@, ms) implies same_views(out@, ms) by {
            let i = out@.len() as int;
            let tail = ms.skip(i);
            if tail.len() > 0 {
                assert(frames(buf@.skip(off as int), tail[0]));
                lemma_frames_bounds(buf@.skip(off as int), tail[0]);
            }
            assert(ms.take(i) =~= ms);
        }
    }
    Ok(out)
}

} // verus!
