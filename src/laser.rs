//! CAEX laser feed messages: the feed list, feed control, and frames of packed points.
use vstd::prelude::*;

use crate::codec::{
    le_u16, le_u32, lemma_le_u16_injective, lemma_le_u32_injective, lemma_prefix_concat, push_u16,
    push_u32, read_u16, read_u32, CodecError, ReadFromBytes, SizeBytes, WriteToBytes,
};
use crate::text::{lemma_units_unique, ucs2_wire, units_wf, Ucs2};

verus! {

/// Sent by Capture upon connection to learn which laser feeds are available.
#[derive(Clone, Copy, Debug, PartialEq, Eq, Structural, Hash)]
pub struct GetLaserFeedList {}

impl GetLaserFeedList {
    pub const CONTENT_TYPE: u32 = 0x00030100;
}

/// Lists the laser feeds on offer; sent in answer to GetLaserFeedList, or unsolicited when
/// the list changes.
#[derive(Clone, Debug, PartialEq, Eq, Hash)]
pub struct LaserFeedList {
    /// The source key used in frame messages.
    pub source_key: u32,
    /// The number of laser feed listings that follow.
    pub feed_count: u8,
    /// The names of the feeds.
    pub feed_names: Vec<Ucs2>,
}

impl LaserFeedList {
    pub const CONTENT_TYPE: u32 = 0x00030101;
}

/// Sent by Capture to ask for a feed to be transmitted (`frame_rate` > 0) or stopped.
#[derive(Clone, Copy, Debug, PartialEq, Eq, Structural, Hash)]
pub struct LaserFeedControl {
    /// The 0-based index of the feed.
    pub feed_index: u8,
    /// The frame rate requested, 0 to disable transmission.
    pub frame_rate: u8,
}

impl LaserFeedControl {
    pub const CONTENT_TYPE: u32 = 0x00030102;
}

/// One point of a laser frame: 12-bit X and Y coordinates and an R5G6B5 colour in five bytes.
///
/// X = x_low_byte + ((xy_high_nibbles & 0x0f) << 8)
/// Y = y_low_byte + ((xy_high_nibbles & 0xf0) << 4)
/// R = color & 0x001f, G = (color & 0x07e0) >> 5, B = (color & 0xf800) >> 11
#[derive(Clone, Copy, Debug, PartialEq, Eq, Structural, Hash)]
pub struct LaserPoint {
    /// The low byte of the x coordinate.
    pub x_low_byte: u8,
    /// The low byte of the y coordinate.
    pub y_low_byte: u8,
    /// The high nibbles of the x (bits 0-3) and y (bits 4-7) coordinates.
    pub xy_high_nibbles: u8,
    /// The colour packed as R5 G6 B5, red in the low bits.
    pub color: u16,
}

/// Carries feed frame data to Capture, unsolicited.
#[derive(Clone, Debug, PartialEq, Eq, Hash)]
pub struct LaserFeedFrame {
    /// The source key as in the LaserFeedList message.
    pub source_key: u32,
    /// The 0-based index of the feed.
    pub feed_index: u8,
    /// A 0-based sequence number for out of order data detection.
    pub frame_sequence: u32,
    /// The number of points that follow.
    pub point_count: u16,
    /// The points of the frame.
    pub points: Vec<LaserPoint>,
}

impl LaserFeedFrame {
    pub const CONTENT_TYPE: u32 = 0x00030200;
}

/// The point that packs the given coordinates and colour channels.
pub open spec fn spec_pack(x: u16, y: u16, red: u16, green: u16, blue: u16) -> LaserPoint {
    LaserPoint {
        x_low_byte: (x & 0xff) as u8,
        y_low_byte: (y & 0xff) as u8,
        xy_high_nibbles: (((x >> 8) & 0x0f) | (((y >> 8) & 0x0f) << 4)) as u8,
        color: red | (green << 5) | (blue << 11),
    }
}

impl LaserPoint {
    /// The x coordinate, read back from the packed fields.
    pub open spec fn spec_x(self) -> u16 {
        (self.x_low_byte as u16) | (((self.xy_high_nibbles & 0x0f) as u16) << 8)
    }

    /// The y coordinate, read back from the packed fields.
    pub open spec fn spec_y(self) -> u16 {
        (self.y_low_byte as u16) | (((self.xy_high_nibbles & 0xf0) as u16) << 4)
    }

    pub open spec fn spec_red(self) -> u16 {
        self.color & 0x001f
    }

    pub open spec fn spec_green(self) -> u16 {
        (self.color & 0x07e0) >> 5
    }

    pub open spec fn spec_blue(self) -> u16 {
        (self.color & 0xf800) >> 11
    }

    /// Packs a point from 12-bit coordinates and 5/6/5-bit colour channels.
    pub fn new(x: u16, y: u16, red: u16, green: u16, blue: u16) -> (r: LaserPoint)
        requires
            x < 4096,
            y < 4096,
            red < 32,
            green < 64,
            blue < 32,
        ensures
            r == spec_pack(x, y, red, green, blue),
    {
        LaserPoint {
            x_low_byte: (x & 0xff) as u8,
            y_low_byte: (y & 0xff) as u8,
            xy_high_nibbles: (((x >> 8) & 0x0f) | (((y >> 8) & 0x0f) << 4)) as u8,
            color: red | (green << 5) | (blue << 11),
        }
    }

    pub fn x(&self) -> (r: u16)
        ensures
            r == self.spec_x(),
    {
        (self.x_low_byte as u16) | (((self.xy_high_nibbles & 0x0f) as u16) << 8)
    }

    pub fn y(&self) -> (r: u16)
        ensures
            r == self.spec_y(),
    {
        (self.y_low_byte as u16) | (((self.xy_high_nibbles & 0xf0) as u16) << 4)
    }

    pub fn red(&self) -> (r: u16)
        ensures
            r == self.spec_red(),
    {
        self.color & 0x001f
    }

    pub fn green(&self) -> (r: u16)
        ensures
            r == self.spec_green(),
    {
        (self.color & 0x07e0) >> 5
    }

    pub fn blue(&self) -> (r: u16)
        ensures
            r == self.spec_blue(),
    {
        (self.color & 0xf800) >> 11
    }
}

/// Unpacking a packed point gives back each coordinate and colour channel.
pub proof fn lemma_point_packing(x: u16, y: u16, red: u16, green: u16, blue: u16)
    requires
        x < 4096,
        y < 4096,
        red < 32,
        green < 64,
        blue < 32,
    ensures
        spec_pack(x, y, red, green, blue).spec_x() == x,
        spec_pack(x, y, red, green, blue).spec_y() == y,
        spec_pack(x, y, red, green, blue).spec_red() == red,
        spec_pack(x, y, red, green, blue).spec_green() == green,
        spec_pack(x, y, red, green, blue).spec_blue() == blue,
{
    assert(x < 4096 ==> (((x & 0xff) as u8) as u16) | (((((((x >> 8) & 0x0f) | (((y >> 8) & 0x0f)
        << 4)) as u8) & 0x0f) as u16) << 8) == x) by (bit_vector);
    assert(y < 4096 ==> (((y & 0xff) as u8) as u16) | (((((((x >> 8) & 0x0f) | (((y >> 8) & 0x0f)
        << 4)) as u8) & 0xf0) as u16) << 4) == y) by (bit_vector);
    assert(red < 32 && green < 64 && blue < 32 ==> ((red | (green << 5) | (blue << 11)) & 0x001f)
        == red && ((red | (green << 5) | (blue << 11)) & 0x07e0) >> 5 == green && ((red | (green
        << 5) | (blue << 11)) & 0xf800) >> 11 == blue) by (bit_vector);
}

impl View for LaserPoint {
    type V = LaserPoint;

    open spec fn view(&self) -> LaserPoint {
        *self
    }
}

impl WriteToBytes for LaserPoint {
    open spec fn wire(&self) -> Seq<u8> {
        seq![self.x_low_byte, self.y_low_byte, self.xy_high_nibbles] + le_u16(self.color)
    }

    fn write_to_bytes(&self, out: &mut Vec<u8>) {
        out.push(self.x_low_byte);
        out.push(self.y_low_byte);
        out.push(self.xy_high_nibbles);
        push_u16(out, self.color);
        assert(out@ =~= old(out)@ + self.wire());
    }
}

impl SizeBytes for LaserPoint {
    open spec fn spec_size(&self) -> nat {
        5
    }

    proof fn lemma_size(&self) {
    }

    fn size_bytes(&self) -> (r: usize) {
        5
    }
}

/// Decodes the point whose five bytes start at `at`.
fn read_point_at(buf: &[u8], at: usize) -> (r: LaserPoint)
    requires
        at + 5 <= buf@.len(),
    ensures
        r.wire() == buf@.subrange(at as int, at + 5),
{
    assert(at + 5 <= buf.len());
    let color = read_u16(buf, at + 3);
    let r = LaserPoint {
        x_low_byte: buf[at],
        y_low_byte: buf[at + 1],
        xy_high_nibbles: buf[at + 2],
        color,
    };
    assert(r.wire() =~= buf@.subrange(at as int, at + 5));
    r
}

/// A point is determined by its wire form.
proof fn lemma_point_wire_injective(a: LaserPoint, b: LaserPoint)
    requires
        a.wire() == b.wire(),
    ensures
        a == b,
{
    assert(a.wire()[0] == a.x_low_byte && a.wire()[1] == a.y_low_byte && a.wire()[2]
        == a.xy_high_nibbles);
    assert(b.wire()[0] == b.x_low_byte && b.wire()[1] == b.y_low_byte && b.wire()[2]
        == b.xy_high_nibbles);
    assert(le_u16(a.color) =~= a.wire().subrange(3, 5));
    assert(le_u16(b.color) =~= b.wire().subrange(3, 5));
    lemma_le_u16_injective(a.color, b.color);
}

impl ReadFromBytes for LaserPoint {
    open spec fn well_formed(&self) -> bool {
        true
    }

    open spec fn read_error(buf: Seq<u8>) -> CodecError {
        CodecError::Underrun
    }

    proof fn lemma_unique(a: Self, b: Self, buf: Seq<u8>) {
        assert(a.wire() =~= buf.subrange(0, 5));
        assert(b.wire() =~= buf.subrange(0, 5));
        lemma_point_wire_injective(a, b);
    }

    fn read_from_bytes(buf: &[u8]) -> (r: Result<Self, CodecError>)
        ensures
            r is Err <==> buf@.len() < 5,
    {
        if buf.len() < 5 {
            return Err(CodecError::Underrun);
        }
        let p = read_point_at(buf, 0);
        proof {
            assert forall|v: Self| #[trigger]
                v.well_formed() && v.wire().is_prefix_of(buf@) implies v@ == p@ by {
                Self::lemma_unique(v, p, buf@);
            }
        }
        Ok(p)
    }
}

impl View for LaserFeedControl {
    type V = LaserFeedControl;

    open spec fn view(&self) -> LaserFeedControl {
        *self
    }
}

impl WriteToBytes for LaserFeedControl {
    open spec fn wire(&self) -> Seq<u8> {
        seq![self.feed_index, self.frame_rate]
    }

    fn write_to_bytes(&self, out: &mut Vec<u8>) {
        out.push(self.feed_index);
        out.push(self.frame_rate);
        assert(out@ =~= old(out)@ + self.wire());
    }
}

impl SizeBytes for LaserFeedControl {
    open spec fn spec_size(&self) -> nat {
        2
    }

    proof fn lemma_size(&self) {
    }

    fn size_bytes(&self) -> (r: usize) {
        2
    }
}

impl ReadFromBytes for LaserFeedControl {
    open spec fn well_formed(&self) -> bool {
        true
    }

    open spec fn read_error(buf: Seq<u8>) -> CodecError {
        CodecError::Underrun
    }

    proof fn lemma_unique(a: Self, b: Self, buf: Seq<u8>) {
        assert(a.wire()[0] == buf[0] && a.wire()[1] == buf[1]);
        assert(b.wire()[0] == buf[0] && b.wire()[1] == buf[1]);
    }

    fn read_from_bytes(buf: &[u8]) -> (r: Result<Self, CodecError>)
        ensures
            r is Err <==> buf@.len() < 2,
    {
        if buf.len() < 2 {
            return Err(CodecError::Underrun);
        }
        let c = LaserFeedControl { feed_index: buf[0], frame_rate: buf[1] };
        proof {
            assert(c.wire() =~= buf@.subrange(0, 2));
            assert forall|v: Self| #[trigger]
                v.well_formed() && v.wire().is_prefix_of(buf@) implies v@ == c@ by {
                Self::lemma_unique(v, c, buf@);
            }
        }
        Ok(c)
    }
}

/// The wire form of a run of points, five bytes each, in order.
pub open spec fn points_wire(s: Seq<LaserPoint>) -> Seq<u8> {
    Seq::new(5 * s.len(), |j: int| s[j / 5].wire()[j % 5])
}

/// The five bytes of slot `i` are the wire form of point `i`.
proof fn lemma_points_wire_slot(s: Seq<LaserPoint>, i: int)
    requires
        0 <= i < s.len(),
    ensures
        points_wire(s).subrange(5 * i, 5 * i + 5) == s[i].wire(),
{
    assert forall|k: int| 0 <= k < 5 implies #[trigger] ((5 * i + k) / 5) == i && (5 * i + k) % 5
        == k by {
    }
    assert(points_wire(s).subrange(5 * i, 5 * i + 5) =~= s[i].wire());
}

proof fn lemma_points_wire_push(s: Seq<LaserPoint>, p: LaserPoint)
    ensures
        points_wire(s.push(p)) == points_wire(s) + p.wire(),
{
    let n = s.len() as int;
    assert forall|k: int| 0 <= k < 5 implies #[trigger] ((5 * n + k) / 5) == n && (5 * n + k) % 5
        == k by {
    }
    assert forall|j: int| 0 <= j < 5 * n implies 0 <= #[trigger] (j / 5) < n by {
    }
    assert(points_wire(s.push(p)) =~= points_wire(s) + p.wire());
}

/// Points that fill the same slots of a buffer are the same points.
proof fn lemma_points_unique(a: Seq<LaserPoint>, b: Seq<LaserPoint>)
    requires
        a.len() == b.len(),
        points_wire(a) == points_wire(b),
    ensures
        a == b,
{
    assert forall|i: int| 0 <= i < a.len() implies a[i] == b[i] by {
        lemma_points_wire_slot(a, i);
        lemma_points_wire_slot(b, i);
        lemma_point_wire_injective(a[i], b[i]);
    }
    assert(a =~= b);
}

impl View for LaserFeedFrame {
    /// Source key, feed index, frame sequence, point count and the points.
    type V = (u32, u8, u32, u16, Seq<LaserPoint>);

    open spec fn view(&self) -> Self::V {
        (self.source_key, self.feed_index, self.frame_sequence, self.point_count, self.points@)
    }
}

impl LaserFeedFrame {
    /// The fixed fields of the wire form; the count written is the number of points held.
    pub open spec fn head_wire(&self) -> Seq<u8> {
        le_u32(self.source_key) + seq![self.feed_index] + le_u32(self.frame_sequence) + le_u16(
            self.points@.len() as u16,
        )
    }

    /// Where the wire form leads `buf`, so do its fields.
    proof fn lemma_fields(&self, buf: Seq<u8>)
        requires
            self.wire().is_prefix_of(buf),
        ensures
            buf.len() >= 11 + 5 * self.points@.len(),
            buf.subrange(0, 4) == le_u32(self.source_key),
            buf[4] == self.feed_index,
            buf.subrange(5, 9) == le_u32(self.frame_sequence),
            buf.subrange(9, 11) == le_u16(self.points@.len() as u16),
            buf.subrange(11, 11 + 5 * self.points@.len() as int) == points_wire(self.points@),
    {
        let w = self.wire();
        assert(w =~= buf.subrange(0, w.len() as int));
        assert(buf.subrange(0, 4) =~= w.subrange(0, 4));
        assert(w.subrange(0, 4) =~= le_u32(self.source_key));
        assert(w[4] == self.feed_index);
        assert(buf.subrange(5, 9) =~= w.subrange(5, 9));
        assert(w.subrange(5, 9) =~= le_u32(self.frame_sequence));
        assert(buf.subrange(9, 11) =~= w.subrange(9, 11));
        assert(w.subrange(9, 11) =~= le_u16(self.points@.len() as u16));
        assert(buf.subrange(11, 11 + 5 * self.points@.len() as int) =~= w.subrange(11, w.len() as int));
        assert(w.subrange(11, w.len() as int) =~= points_wire(self.points@));
    }
}

impl WriteToBytes for LaserFeedFrame {
    open spec fn wire(&self) -> Seq<u8> {
        self.head_wire() + points_wire(self.points@)
    }

    fn write_to_bytes(&self, out: &mut Vec<u8>) {
        let ghost start = out@;
        push_u32(out, self.source_key);
        out.push(self.feed_index);
        push_u32(out, self.frame_sequence);
        #[verifier::truncate]
        let count = self.points.len() as u16;
        push_u16(out, count);
        assert(out@ =~= start + self.head_wire());
        assert(self.points@.take(0) =~= Seq::<LaserPoint>::empty());
        assert(points_wire(Seq::<LaserPoint>::empty()) =~= Seq::<u8>::empty());
        let mut i: usize = 0;
        while i < self.points.len()
            invariant
                i <= self.points@.len(),
                out@ == start + self.head_wire() + points_wire(self.points@.take(i as int)),
            decreases self.points@.len() - i,
        {
            self.points[i].write_to_bytes(out);
            proof {
                assert(self.points@.take(i + 1) =~= self.points@.take(i as int).push(
                    self.points@[i as int],
                ));
                lemma_points_wire_push(self.points@.take(i as int), self.points@[i as int]);
            }
            i += 1;
        }
        assert(self.points@.take(i as int) =~= self.points@);
        assert(out@ =~= start + self.wire());
    }
}

impl SizeBytes for LaserFeedFrame {
    open spec fn spec_size(&self) -> nat {
        11 + 5 * self.points@.len()
    }

    proof fn lemma_size(&self) {
    }

    fn size_bytes(&self) -> (r: usize) {
        11 + 5 * self.points.len()
    }
}

impl ReadFromBytes for LaserFeedFrame {
    /// The count field agrees with the points held.
    open spec fn well_formed(&self) -> bool {
        self.point_count == self.points@.len()
    }

    open spec fn read_error(buf: Seq<u8>) -> CodecError {
        CodecError::Underrun
    }

    proof fn lemma_unique(a: Self, b: Self, buf: Seq<u8>) {
        a.lemma_fields(buf);
        b.lemma_fields(buf);
        lemma_le_u32_injective(a.source_key, b.source_key);
        lemma_le_u32_injective(a.frame_sequence, b.frame_sequence);
        lemma_le_u16_injective(a.points@.len() as u16, b.points@.len() as u16);
        lemma_points_unique(a.points@, b.points@);
    }

    /// Fails, with an underrun, exactly when the buffer is shorter than the fixed fields or
    /// than the points that their count declares.
    fn read_from_bytes(buf: &[u8]) -> (r: Result<Self, CodecError>)
        ensures
            r is Err <==> buf@.len() < 11 || buf@.len() < 11 + 5 * (buf@[9] + 256 * buf@[10]),
    {
        let len = buf.len();
        if len < 11 {
            proof {
                assert forall|v: Self| #[trigger]
                    v.well_formed() && v.wire().is_prefix_of(buf@) implies false by {
                    v.lemma_fields(buf@);
                }
            }
            return Err(CodecError::Underrun);
        }
        let source_key = read_u32(buf, 0);
        let feed_index = buf[4];
        let frame_sequence = read_u32(buf, 5);
        let point_count = read_u16(buf, 9);
        assert(point_count == buf@[9] + 256 * buf@[10]);
        if len - 11 < 5 * (point_count as usize) {
            proof {
                assert forall|v: Self| #[trigger]
                    v.well_formed() && v.wire().is_prefix_of(buf@) implies false by {
                    v.lemma_fields(buf@);
                    lemma_le_u16_injective(point_count, v.points@.len() as u16);
                }
            }
            return Err(CodecError::Underrun);
        }
        let mut points: Vec<LaserPoint> = Vec::new();
        let mut i: usize = 0;
        while i < point_count as usize
            invariant
                i <= point_count,
                11 + 5 * point_count <= len == buf@.len(),
                points@.len() == i,
                forall|k: int|
                    0 <= k < i ==> (#[trigger] points@[k]).wire() == buf@.subrange(
                        11 + 5 * k,
                        11 + 5 * k + 5,
                    ),
            decreases point_count - i,
        {
            let p = read_point_at(buf, 11 + 5 * i);
            points.push(p);
            i += 1;
        }
        let frame = LaserFeedFrame { source_key, feed_index, frame_sequence, point_count, points };
        proof {
            let n = point_count as int;
            assert forall|j: int| 0 <= j < 5 * n implies #[trigger] points_wire(frame.points@)[j]
                == buf@[11 + j] by {
                let k = j / 5;
                assert(0 <= k < n);
                assert(frame.points@[k].wire()[j % 5] == buf@.subrange(11 + 5 * k, 11 + 5 * k + 5)[j
                    % 5]);
            }
            assert(points_wire(frame.points@) =~= buf@.subrange(11, 11 + 5 * n));
            assert(frame.wire() =~= buf@.subrange(0, 11 + 5 * n));
            assert forall|v: Self| #[trigger]
                v.well_formed() && v.wire().is_prefix_of(buf@) implies v@ == frame@ by {
                Self::lemma_unique(v, frame, buf@);
            }
        }
        Ok(frame)
    }
}

/// The code units of each name.
pub open spec fn names_view(s: Seq<Ucs2>) -> Seq<Seq<u16>> {
    s.map_values(|n: Ucs2| n@)
}

/// The wire form of a run of strings, each with its terminator, in order.
pub open spec fn names_wire(s: Seq<Seq<u16>>) -> Seq<u8>
    decreases s.len(),
{
    if s.len() == 0 {
        Seq::empty()
    } else {
        ucs2_wire(s[0]) + names_wire(s.skip(1))
    }
}

/// The bytes that a run of strings takes: two per unit and two for each terminator.
pub open spec fn names_size(s: Seq<Seq<u16>>) -> nat
    decreases s.len(),
{
    if s.len() == 0 {
        0
    } else {
        2 * (s[0].len() + 1) + names_size(s.skip(1))
    }
}

proof fn lemma_names_size(s: Seq<Seq<u16>>)
    ensures
        names_wire(s).len() == names_size(s),
    decreases s.len(),
{
    if s.len() > 0 {
        lemma_names_size(s.skip(1));
    }
}

/// The wire form of a run splits where the run does.
proof fn lemma_names_wire_split(s: Seq<Seq<u16>>, i: int)
    requires
        0 <= i <= s.len(),
    ensures
        names_wire(s) == names_wire(s.take(i)) + names_wire(s.skip(i)),
    decreases i,
{
    if i == 0 {
        assert(s.take(0) =~= Seq::<Seq<u16>>::empty());
        assert(s.skip(0) =~= s);
        assert(names_wire(s) =~= Seq::<u8>::empty() + names_wire(s));
    } else {
        lemma_names_wire_split(s.skip(1), i - 1);
        assert(s.skip(1).skip(i - 1) =~= s.skip(i));
        assert(s.take(i).skip(1) =~= s.skip(1).take(i - 1));
        assert(s.take(i)[0] == s[0]);
        assert(names_wire(s) =~= names_wire(s.take(i)) + names_wire(s.skip(i)));
    }
}

/// The wire form of the run from `i` on starts with string `i`.
proof fn lemma_names_wire_at(s: Seq<Seq<u16>>, i: int)
    requires
        0 <= i < s.len(),
    ensures
        names_wire(s.skip(i)) == ucs2_wire(s[i]) + names_wire(s.skip(i + 1)),
{
    assert(s.skip(i).skip(1) =~= s.skip(i + 1));
    assert(s.skip(i)[0] == s[i]);
}

proof fn lemma_names_wire_push(s: Seq<Seq<u16>>, x: Seq<u16>)
    ensures
        names_wire(s.push(x)) == names_wire(s) + ucs2_wire(x),
{
    let t = s.push(x);
    lemma_names_wire_split(t, s.len() as int);
    assert(t.take(s.len() as int) =~= s);
    lemma_names_wire_at(t, s.len() as int);
    assert(t.skip(s.len() as int + 1) =~= Seq::<Seq<u16>>::empty());
    assert(names_wire(t.skip(s.len() as int)) =~= ucs2_wire(x));
}

/// Runs of equally many terminated strings that both lead a buffer are the same run.
proof fn lemma_names_unique(a: Seq<Seq<u16>>, b: Seq<Seq<u16>>, buf: Seq<u8>)
    requires
        a.len() == b.len(),
        forall|i: int| 0 <= i < a.len() ==> units_wf(#[trigger] a[i]),
        forall|i: int| 0 <= i < b.len() ==> units_wf(#[trigger] b[i]),
        names_wire(a).is_prefix_of(buf),
        names_wire(b).is_prefix_of(buf),
    ensures
        a == b,
    decreases a.len(),
{
    if a.len() > 0 {
        lemma_prefix_concat(ucs2_wire(a[0]), names_wire(a.skip(1)), buf);
        lemma_prefix_concat(ucs2_wire(b[0]), names_wire(b.skip(1)), buf);
        lemma_units_unique(a[0], b[0], buf);
        lemma_names_unique(a.skip(1), b.skip(1), buf.skip(ucs2_wire(a[0]).len() as int));
        assert forall|i: int| 0 <= i < a.len() implies a[i] == b[i] by {
            if i > 0 {
                assert(a[i] == a.skip(1)[i - 1]);
                assert(b[i] == b.skip(1)[i - 1]);
            }
        }
        assert(a =~= b);
    }
}

impl View for LaserFeedList {
    /// Source key, feed count and the code units of each name.
    type V = (u32, u8, Seq<Seq<u16>>);

    open spec fn view(&self) -> Self::V {
        (self.source_key, self.feed_count, names_view(self.feed_names@))
    }
}

impl LaserFeedList {
    /// The fixed fields of the wire form; the count written is the number of names held.
    pub open spec fn head_wire(&self) -> Seq<u8> {
        le_u32(self.source_key) + seq![self.feed_names@.len() as u8]
    }

    /// Where the wire form leads `buf`, so do its fields.
    proof fn lemma_fields(&self, buf: Seq<u8>)
        requires
            self.wire().is_prefix_of(buf),
        ensures
            buf.len() >= 5,
            buf.subrange(0, 4) == le_u32(self.source_key),
            buf[4] == self.feed_names@.len() as u8,
            names_wire(names_view(self.feed_names@)).is_prefix_of(buf.skip(5)),
    {
        lemma_prefix_concat(self.head_wire(), names_wire(names_view(self.feed_names@)), buf);
        assert(buf.subrange(0, 4) =~= self.head_wire().subrange(0, 4));
        assert(self.head_wire().subrange(0, 4) =~= le_u32(self.source_key));
        assert(self.head_wire()[4] == self.feed_names@.len() as u8);
    }
}

impl WriteToBytes for LaserFeedList {
    open spec fn wire(&self) -> Seq<u8> {
        self.head_wire() + names_wire(names_view(self.feed_names@))
    }

    fn write_to_bytes(&self, out: &mut Vec<u8>) {
        let ghost start = out@;
        let ghost names = names_view(self.feed_names@);
        push_u32(out, self.source_key);
        #[verifier::truncate]
        let count = self.feed_names.len() as u8;
        out.push(count);
        assert(out@ =~= start + self.head_wire());
        assert(names.take(0) =~= Seq::<Seq<u16>>::empty());
        let mut i: usize = 0;
        while i < self.feed_names.len()
            invariant
                i <= self.feed_names@.len(),
                names == names_view(self.feed_names@),
                out@ == start + self.head_wire() + names_wire(names.take(i as int)),
            decreases self.feed_names@.len() - i,
        {
            self.feed_names[i].write_to_bytes(out);
            proof {
                assert(names.take(i + 1) =~= names.take(i as int).push(names[i as int]));
                lemma_names_wire_push(names.take(i as int), names[i as int]);
            }
            i += 1;
        }
        assert(names.take(i as int) =~= names);
        assert(out@ =~= start + self.wire());
    }
}

impl SizeBytes for LaserFeedList {
    open spec fn spec_size(&self) -> nat {
        5 + names_size(names_view(self.feed_names@))
    }

    proof fn lemma_size(&self) {
        lemma_names_size(names_view(self.feed_names@));
    }

    fn size_bytes(&self) -> (r: usize) {
        let ghost names = names_view(self.feed_names@);
        proof {
            self.lemma_size();
        }
        let mut total: usize = 5;
        let mut i: usize = 0;
        while i < self.feed_names.len()
            invariant
                i <= self.feed_names@.len(),
                names == names_view(self.feed_names@),
                5 + names_size(names) <= usize::MAX,
                total == 5 + names_size(names.take(i as int)),
            decreases self.feed_names@.len() - i,
        {
            proof {
                assert(names.take(i + 1) =~= names.take(i as int).push(names[i as int]));
                lemma_names_wire_push(names.take(i as int), names[i as int]);
                lemma_names_wire_split(names, i + 1);
                lemma_names_size(names.take(i + 1));
                lemma_names_size(names.take(i as int));
                lemma_names_size(names);
                self.feed_names@[i as int].lemma_size();
            }
            total = total + self.feed_names[i].size_bytes();
            i += 1;
        }
        assert(names.take(i as int) =~= names);
        total
    }
}

impl ReadFromBytes for LaserFeedList {
    /// The count field agrees with the names held, and no name holds a zero unit.
    open spec fn well_formed(&self) -> bool {
        &&& self.feed_count == self.feed_names@.len()
        &&& forall|i: int|
            0 <= i < self.feed_names@.len() ==> (#[trigger] self.feed_names@[i]).well_formed()
    }

    open spec fn read_error(buf: Seq<u8>) -> CodecError {
        if buf.len() < 5 {
            CodecError::Underrun
        } else {
            CodecError::MalformedString
        }
    }

    proof fn lemma_unique(a: Self, b: Self, buf: Seq<u8>) {
        a.lemma_fields(buf);
        b.lemma_fields(buf);
        lemma_le_u32_injective(a.source_key, b.source_key);
        let na = names_view(a.feed_names@);
        let nb = names_view(b.feed_names@);
        assert forall|i: int| 0 <= i < na.len() implies units_wf(#[trigger] na[i]) by {
            assert(a.feed_names@[i].well_formed());
        }
        assert forall|i: int| 0 <= i < nb.len() implies units_wf(#[trigger] nb[i]) by {
            assert(b.feed_names@[i].well_formed());
        }
        lemma_names_unique(na, nb, buf.skip(5));
    }

    /// Fails with an underrun when the fixed fields do not fit, and as a malformed string
    /// when a name lacks its terminator.
    fn read_from_bytes(buf: &[u8]) -> (r: Result<Self, CodecError>) {
        let len = buf.len();
        if len < 5 {
            proof {
                assert forall|v: Self| #[trigger]
                    v.well_formed() && v.wire().is_prefix_of(buf@) implies false by {
                    v.lemma_fields(buf@);
                }
            }
            return Err(CodecError::Underrun);
        }
        let source_key = read_u32(buf, 0);
        let feed_count = buf[4];
        let ghost tail = buf@.skip(5);
        let mut feed_names: Vec<Ucs2> = Vec::new();
        let mut off: usize = 5;
        let mut i: usize = 0;
        assert(names_view(feed_names@) =~= Seq::<Seq<u16>>::empty());
        while i < feed_count as usize
            invariant
                len == buf@.len(),
                tail == buf@.skip(5),
                feed_count == buf@[4],
                5 <= off <= len,
                i <= feed_count,
                feed_names@.len() == i,
                names_wire(names_view(feed_names@)) == tail.subrange(0, off - 5),
                forall|k: int| 0 <= k < i ==> (#[trigger] feed_names@[k]).well_formed(),
            decreases feed_count - i,
        {
            let rest = vstd::slice::slice_subrange(buf, off, len);
            assert(rest@ =~= tail.skip(off - 5));
            match Ucs2::read_from_bytes(rest) {
                Ok(name) => {
                    proof {
                        name.lemma_size();
                        assert(names_view(feed_names@.push(name)) =~= names_view(
                            feed_names@,
                        ).push(name@));
                        lemma_names_wire_push(names_view(feed_names@), name@);
                        assert(tail.subrange(0, off - 5 + name.wire().len()) =~= tail.subrange(
                            0,
                            off - 5,
                        ) + name.wire());
                    }
                    let size = name.size_bytes();
                    feed_names.push(name);
                    off = off + size;
                    i += 1;
                },
                Err(_) => {
                    proof {
                        let mine = names_view(feed_names@);
                        assert(names_wire(mine).is_prefix_of(tail));
                        assert forall|k: int| 0 <= k < mine.len() implies units_wf(
                            #[trigger] mine[k],
                        ) by {
                            assert(feed_names@[k].well_formed());
                        }
                        assert forall|v: Self| #[trigger]
                            v.well_formed() && v.wire().is_prefix_of(buf@) implies false by {
                            v.lemma_fields(buf@);
                            let theirs = names_view(v.feed_names@);
                            assert(feed_count == buf@[4]);
                            assert(v.feed_names@.len() == v.feed_count);
                            assert(feed_count == v.feed_names@.len());
                            lemma_names_wire_split(theirs, i as int);
                            lemma_prefix_concat(
                                names_wire(theirs.take(i as int)),
                                names_wire(theirs.skip(i as int)),
                                tail,
                            );
                            assert forall|k: int| 0 <= k < i implies units_wf(
                                #[trigger] theirs.take(i as int)[k],
                            ) by {
                                assert(v.feed_names@[k].well_formed());
                            }
                            lemma_names_unique(mine, theirs.take(i as int), tail);
                            lemma_names_wire_at(theirs, i as int);
                            lemma_prefix_concat(
                                ucs2_wire(theirs[i as int]),
                                names_wire(theirs.skip(i + 1)),
                                tail.skip(off - 5),
                            );
                            let name = v.feed_names@[i as int];
                            assert(name.well_formed());
                            assert(name.wire().is_prefix_of(rest@));
                        }
                    }
                    return Err(CodecError::MalformedString);
                },
            }
        }
        let list = LaserFeedList { source_key, feed_count, feed_names };
        proof {
            assert(le_u32(source_key) + seq![feed_count] =~= buf@.subrange(0, 5));
            lemma_prefix_concat(list.head_wire(), names_wire(names_view(list.feed_names@)), buf@);
            assert forall|v: Self| #[trigger]
                v.well_formed() && v.wire().is_prefix_of(buf@) implies v@ == list@ by {
                Self::lemma_unique(v, list, buf@);
            }
        }
        Ok(list)
    }
}

impl View for GetLaserFeedList {
    type V = GetLaserFeedList;

    open spec fn view(&self) -> GetLaserFeedList {
        *self
    }
}

impl WriteToBytes for GetLaserFeedList {
    /// The message has no body.
    open spec fn wire(&self) -> Seq<u8> {
        Seq::empty()
    }

    fn write_to_bytes(&self, out: &mut Vec<u8>) {
        assert(out@ =~= old(out)@ + self.wire());
    }
}

impl SizeBytes for GetLaserFeedList {
    open spec fn spec_size(&self) -> nat {
        0
    }

    proof fn lemma_size(&self) {
    }

    fn size_bytes(&self) -> (r: usize) {
        0
    }
}

impl ReadFromBytes for GetLaserFeedList {
    open spec fn well_formed(&self) -> bool {
        true
    }

    open spec fn read_error(buf: Seq<u8>) -> CodecError {
        CodecError::Underrun
    }

    proof fn lemma_unique(a: Self, b: Self, buf: Seq<u8>) {
    }

    /// Never fails: the body is empty.
    fn read_from_bytes(buf: &[u8]) -> (r: Result<Self, CodecError>)
        ensures
            r is Ok,
    {
        let r = GetLaserFeedList {  };
        assert(r.wire().is_prefix_of(buf@));
        Ok(r)
    }
}

} // verus!
