//! UCS-2 text: a sequence of 16-bit code units, null-terminated on the wire.
use vstd::prelude::*;

use crate::codec::{
    le_u16, lemma_le_u16_injective, lemma_le_u16_value, push_u16, read_u16, CodecError,
    ReadFromBytes, SizeBytes, WriteToBytes,
};

verus! {

/// Relies on `ucs2::Error`, the error of `ucs2::encode` and `ucs2::decode`: it is carried
/// only as far as the wrappers below and mapped to the library's own error.
#[verifier::external_type_specification]
#[verifier::external_body]
pub struct ExUcs2Error(ucs2::Error);

/// Relies on `ucs2::encode`: each character of the text becomes one unit holding its code
/// point, and the call fails exactly when a character lies above U+FFFF. The buffer has
/// room for as many units as the text has bytes, so it never runs out.
#[verifier::external_body]
fn encode_units(s: &str) -> (r: Result<Vec<u16>, ucs2::Error>)
    ensures
        r is Ok <==> forall|i: int| 0 <= i < s@.len() ==> (s@[i] as u32) <= 0xFFFF,
        r is Ok ==> r->Ok_0@ == ucs2_of(s@),
{
    let mut buffer = vec![0u16; s.len()];
    let n = ucs2::encode(s, &mut buffer)?;
    buffer.truncate(n);
    Ok(buffer)
}

/// Relies on `ucs2::decode`: a unit outside the surrogate range becomes the UTF-8 form of
/// the code point it holds, at most three bytes, so the text has one character per unit.
/// The call fails only when the output buffer is too small, and three bytes per unit are
/// always room enough.
#[verifier::external_body]
fn decode_units(units: &[u16]) -> (r: Result<String, ucs2::Error>)
    requires
        forall|i: int| 0 <= i < units@.len() ==> !is_surrogate(#[trigger] units@[i]),
    ensures
        r is Ok,
        r->Ok_0@ == text_of(units@),
{
    let mut bytes = vec![0u8; 3 * units.len()];
    let n = ucs2::decode(units, &mut bytes)?;
    bytes.truncate(n);
    Ok(String::from_utf8_lossy(&bytes).into_owned())
}

/// The units that hold the code points of the characters, one each.
pub open spec fn ucs2_of(s: Seq<char>) -> Seq<u16> {
    s.map_values(|c: char| (c as u32) as u16)
}

/// The characters whose code points the units hold, one each.
pub open spec fn text_of(u: Seq<u16>) -> Seq<char> {
    u.map_values(|x: u16| (x as u32) as char)
}

/// A unit in the range that UTF-16 reserves for surrogate pairs: no character has it.
pub open spec fn is_surrogate(u: u16) -> bool {
    0xD800 <= u <= 0xDFFF
}

/// Text as UCS-2 code units, without the terminating zero unit.
#[derive(Clone, Debug, PartialEq, Eq, Hash)]
pub struct Ucs2 {
    units: Vec<u16>,
}

/// The wire form of a run of units, two little-endian bytes each.
pub open spec fn units_wire(s: Seq<u16>) -> Seq<u8> {
    Seq::new(2 * s.len(), |j: int| le_u16(s[j / 2])[j % 2])
}

/// The two bytes of slot `i` are the wire form of unit `i`.
pub proof fn lemma_units_wire_slot(s: Seq<u16>, i: int)
    requires
        0 <= i < s.len(),
    ensures
        units_wire(s).subrange(2 * i, 2 * i + 2) == le_u16(s[i]),
{
    assert forall|k: int| 0 <= k < 2 implies #[trigger] ((2 * i + k) / 2) == i && (2 * i + k) % 2
        == k by {
    }
    assert(units_wire(s).subrange(2 * i, 2 * i + 2) =~= le_u16(s[i]));
}

proof fn lemma_units_wire_push(s: Seq<u16>, u: u16)
    ensures
        units_wire(s.push(u)) == units_wire(s) + le_u16(u),
{
    let n = s.len() as int;
    assert forall|k: int| 0 <= k < 2 implies #[trigger] ((2 * n + k) / 2) == n && (2 * n + k) % 2
        == k by {
    }
    assert forall|j: int| 0 <= j < 2 * n implies 0 <= #[trigger] (j / 2) < n by {
    }
    assert(units_wire(s.push(u)) =~= units_wire(s) + le_u16(u));
}

/// The wire form of a string of units: each unit, then a zero unit.
pub open spec fn ucs2_wire(u: Seq<u16>) -> Seq<u8> {
    units_wire(u) + seq![0u8, 0u8]
}

/// The little-endian unit whose two bytes start at `i`.
pub open spec fn unit_at(buf: Seq<u8>, i: int) -> int {
    buf[i] + 256 * buf[i + 1]
}

/// `buf` starts with `n` nonzero units and then a zero unit.
pub open spec fn terminated_after(buf: Seq<u8>, n: nat) -> bool {
    &&& 2 * n + 2 <= buf.len()
    &&& forall|k: int| 0 <= k < n ==> #[trigger] unit_at(buf, 2 * k) != 0
    &&& unit_at(buf, 2 * n as int) == 0
}

/// Some zero unit lies, at an even offset, within `buf`.
pub open spec fn has_terminator(buf: Seq<u8>) -> bool {
    exists|n: nat| #[trigger] terminated_after(buf, n)
}

/// The number of units before the first zero unit of `buf`.
pub open spec fn terminated_len(buf: Seq<u8>) -> nat {
    choose|n: nat| #[trigger] terminated_after(buf, n)
}

/// The first zero unit is the only one that ends a run of nonzero units.
pub proof fn lemma_terminated_unique(buf: Seq<u8>, n: nat, m: nat)
    requires
        terminated_after(buf, n),
        terminated_after(buf, m),
    ensures
        n == m,
{
    if n < m {
        assert(unit_at(buf, 2 * n as int) != 0);
    } else if m < n {
        assert(unit_at(buf, 2 * m as int) != 0);
    }
}

/// No unit is zero, so the terminator is the first zero unit.
pub open spec fn units_wf(u: Seq<u16>) -> bool {
    forall|i: int| 0 <= i < u.len() ==> #[trigger] u[i] != 0
}

impl View for Ucs2 {
    type V = Seq<u16>;

    closed spec fn view(&self) -> Seq<u16> {
        self.units@
    }
}

impl Ucs2 {
    /// Encodes text; fails exactly when a character lies above U+FFFF.
    pub fn from_str(s: &str) -> (r: Result<Ucs2, CodecError>)
        ensures
            r is Ok <==> forall|i: int| 0 <= i < s@.len() ==> (s@[i] as u32) <= 0xFFFF,
            r is Ok ==> r->Ok_0@ == ucs2_of(s@),
            r is Err ==> r->Err_0 == CodecError::MalformedString,
    {
        match encode_units(s) {
            Ok(units) => Ok(Ucs2 { units }),
            Err(_) => Err(CodecError::MalformedString),
        }
    }

    /// Decodes to text; fails exactly when a unit lies in the surrogate range.
    pub fn to_str(&self) -> (r: Result<String, CodecError>)
        ensures
            r is Ok <==> forall|i: int| 0 <= i < self@.len() ==> !is_surrogate(#[trigger] self@[i]),
            r is Ok ==> r->Ok_0@ == text_of(self@),
            r is Err ==> r->Err_0 == CodecError::MalformedString,
    {
        let mut i: usize = 0;
        while i < self.units.len()
            invariant
                i <= self@.len(),
                forall|k: int| 0 <= k < i ==> !is_surrogate(#[trigger] self@[k]),
            decreases self@.len() - i,
        {
            if 0xD800 <= self.units[i] && self.units[i] <= 0xDFFF {
                return Err(CodecError::MalformedString);
            }
            i += 1;
        }
        match decode_units(self.units.as_slice()) {
            Ok(s) => Ok(s),
            Err(_) => Err(CodecError::MalformedString),
        }
    }

    /// Takes the given code units as they are.
    pub fn from_units(units: Vec<u16>) -> (r: Ucs2)
        ensures
            r@ == units@,
    {
        Ucs2 { units }
    }

    /// The code units, without the terminating zero unit.
    pub fn units(&self) -> (r: &[u16])
        ensures
            r@ == self@,
    {
        self.units.as_slice()
    }

    /// The number of code units, without the terminating zero unit.
    pub fn len(&self) -> (r: usize)
        ensures
            r == self@.len(),
    {
        self.units.len()
    }
}

/// Encoding text whose characters all lie at or below U+FFFF and decoding the units gives
/// the text back.
pub proof fn lemma_text_round_trip(s: Seq<char>)
    requires
        forall|i: int| 0 <= i < s.len() ==> (s[i] as u32) <= 0xFFFF,
    ensures
        forall|i: int| 0 <= i < s.len() ==> !is_surrogate(#[trigger] ucs2_of(s)[i]),
        text_of(ucs2_of(s)) == s,
{
    let units = ucs2_of(s);
    assert forall|i: int| 0 <= i < s.len() implies !is_surrogate(#[trigger] units[i]) && (
    units[i] as u32) as char == s[i] by {
        assert((s[i] as u32) <= 0xFFFF);
        assert(units[i] == (s[i] as u32) as u16);
        assert(units[i] as u32 == s[i] as u32);
        vstd::utf8::char_is_scalar(s[i]);
        vstd::utf8::char_u32_cast(s[i], units[i] as u32);
    }
    assert(text_of(units) =~= s);
}

impl WriteToBytes for Ucs2 {
    open spec fn wire(&self) -> Seq<u8> {
        ucs2_wire(self@)
    }

    fn write_to_bytes(&self, out: &mut Vec<u8>) {
        let ghost start = out@;
        assert(self@.take(0) =~= Seq::<u16>::empty());
        assert(units_wire(Seq::<u16>::empty()) =~= Seq::<u8>::empty());
        let mut i: usize = 0;
        while i < self.units.len()
            invariant
                i <= self@.len(),
                out@ == start + units_wire(self@.take(i as int)),
            decreases self@.len() - i,
        {
            push_u16(out, self.units[i]);
            proof {
                assert(self@.take(i + 1) =~= self@.take(i as int).push(self@[i as int]));
                lemma_units_wire_push(self@.take(i as int), self@[i as int]);
            }
            i += 1;
        }
        assert(self@.take(i as int) =~= self@);
        out.push(0);
        out.push(0);
        assert(out@ =~= start + self.wire());
    }
}

impl SizeBytes for Ucs2 {
    open spec fn spec_size(&self) -> nat {
        2 * (self@.len() + 1)
    }

    proof fn lemma_size(&self) {
    }

    fn size_bytes(&self) -> (r: usize) {
        2 * (self.units.len() + 1)
    }
}

impl ReadFromBytes for Ucs2 {
    /// No unit is zero, so the terminator is the first zero unit.
    open spec fn well_formed(&self) -> bool {
        units_wf(self@)
    }

    open spec fn read_error(buf: Seq<u8>) -> CodecError {
        CodecError::MalformedString
    }

    proof fn lemma_unique(a: Self, b: Self, buf: Seq<u8>) {
        lemma_units_unique(a@, b@, buf);
    }

    /// Fails, as a malformed string, exactly when no zero unit is found within the buffer;
    /// otherwise the string holds the units before the first one.
    fn read_from_bytes(buf: &[u8]) -> (r: Result<Self, CodecError>)
        ensures
            r is Ok <==> has_terminator(buf@),
            r is Ok ==> r->Ok_0@.len() == terminated_len(buf@),
    {
        let len = buf.len();
        let mut units: Vec<u16> = Vec::new();
        let mut i: usize = 0;
        while i < len / 2
            invariant
                len == buf@.len(),
                units@.len() == i,
                2 * i <= len,
                forall|k: int|
                    0 <= k < i ==> le_u16(#[trigger] units@[k]) == buf@.subrange(2 * k, 2 * k + 2)
                        && units@[k] != 0,
            decreases len - 2 * i,
        {
            let u = read_u16(buf, 2 * i);
            proof {
                lemma_le_u16_value(u, buf@, 2 * i);
            }
            if u == 0 {
                let s = Ucs2 { units };
                proof {
                    assert forall|k: int| 0 <= k < i implies #[trigger] unit_at(buf@, 2 * k) != 0 by {
                        lemma_le_u16_value(s@[k], buf@, 2 * k);
                    }
                    assert(terminated_after(buf@, i as nat));
                    lemma_terminated_unique(buf@, i as nat, terminated_len(buf@));
                    assert forall|j: int| 0 <= j < 2 * i implies #[trigger] units_wire(s@)[j]
                        == buf@[j] by {
                        let k = j / 2;
                        assert(le_u16(s@[k])[j % 2] == buf@.subrange(2 * k, 2 * k + 2)[j % 2]);
                    }
                    assert(units_wire(s@) =~= buf@.subrange(0, 2 * i as int));
                    assert(le_u16(0) =~= seq![0u8, 0u8]);
                    assert(s.wire() =~= buf@.subrange(0, 2 * i + 2));
                    assert forall|v: Self| #[trigger]
                        v.well_formed() && v.wire().is_prefix_of(buf@) implies v@ == s@ by {
                        Self::lemma_unique(v, s, buf@);
                    }
                }
                return Ok(s);
            }
            units.push(u);
            i += 1;
        }
        proof {
            assert forall|v: Self| #[trigger]
                v.well_formed() && v.wire().is_prefix_of(buf@) implies false by {
                lemma_units_leads(v@, buf@);
                let n = v@.len() as int;
                assert(n < i);
                lemma_le_u16_injective(units@[n], 0);
            }
            assert forall|n: nat| !#[trigger] terminated_after(buf@, n) by {
                if terminated_after(buf@, n) {
                    assert(n < i);
                    lemma_le_u16_value(units@[n as int], buf@, 2 * n as int);
                }
            }
        }
        Err(CodecError::MalformedString)
    }
}

/// Where the wire form of `u` leads `buf`, each unit fills its slot and a zero unit follows.
proof fn lemma_units_leads(u: Seq<u16>, buf: Seq<u8>)
    requires
        ucs2_wire(u).is_prefix_of(buf),
    ensures
        2 * u.len() + 2 <= buf.len(),
        buf.subrange(2 * u.len() as int, 2 * u.len() as int + 2) == le_u16(0),
        forall|i: int| 0 <= i < u.len() ==> buf.subrange(2 * i, 2 * i + 2) == le_u16(#[trigger] u[i]),
{
    let n = u.len() as int;
    let w = ucs2_wire(u);
    assert(w =~= buf.subrange(0, w.len() as int));
    assert(buf.subrange(2 * n, 2 * n + 2) =~= w.subrange(2 * n, 2 * n + 2));
    assert(w.subrange(2 * n, 2 * n + 2) =~= le_u16(0));
    assert forall|i: int| 0 <= i < n implies buf.subrange(2 * i, 2 * i + 2) == le_u16(
        #[trigger] u[i],
    ) by {
        lemma_units_wire_slot(u, i);
        assert(buf.subrange(2 * i, 2 * i + 2) =~= w.subrange(2 * i, 2 * i + 2));
        assert(w.subrange(2 * i, 2 * i + 2) =~= units_wire(u).subrange(2 * i, 2 * i + 2));
    }
}

/// At most one run of nonzero units has its terminated wire form lead a buffer.
pub proof fn lemma_units_unique(a: Seq<u16>, b: Seq<u16>, buf: Seq<u8>)
    requires
        units_wf(a),
        units_wf(b),
        ucs2_wire(a).is_prefix_of(buf),
        ucs2_wire(b).is_prefix_of(buf),
    ensures
        a == b,
{
    lemma_units_leads(a, buf);
    lemma_units_leads(b, buf);
    let na = a.len() as int;
    let nb = b.len() as int;
    if na < nb {
        lemma_le_u16_injective(b[na], 0);
    } else if nb < na {
        lemma_le_u16_injective(a[nb], 0);
    }
    assert forall|i: int| 0 <= i < na implies a[i] == b[i] by {
        lemma_le_u16_injective(a[i], b[i]);
    }
    assert(a =~= b);
}

/// Where a string of nonzero units leads `buf`, its terminator is the first zero unit.
pub proof fn lemma_leads_terminated(u: Seq<u16>, buf: Seq<u8>)
    requires
        units_wf(u),
        ucs2_wire(u).is_prefix_of(buf),
    ensures
        has_terminator(buf),
        terminated_len(buf) == u.len(),
{
    lemma_units_leads(u, buf);
    assert forall|k: int| 0 <= k < u.len() implies #[trigger] unit_at(buf, 2 * k) != 0 by {
        lemma_le_u16_value(u[k], buf, 2 * k);
    }
    lemma_le_u16_value(0, buf, 2 * u.len() as int);
    assert(terminated_after(buf, u.len()));
    lemma_terminated_unique(buf, u.len(), terminated_len(buf));
}

} // verus!
