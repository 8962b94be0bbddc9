//! Type, length, value: the framing that the nested attributes share.

use vstd::prelude::*;

use crate::run::Record;
use crate::wire;

verus! {

/// How wide the type and the length are.
#[derive(Clone, Copy, PartialEq, Eq, Structural, Debug)]
pub enum Frame {
    /// A type of one octet, a length of two.
    Short,
    /// A type and a length of two octets each.
    Long,
    /// A type of one octet; a length of one octet for types below 128, else of two.
    Split,
}

/// A type and its uninterpreted value.
#[derive(Clone, PartialEq, Eq, Debug)]
pub struct Tlv {
    pub kind: u16,
    pub body: Vec<u8>,
}

/// A type and its value as a mathematical value.
pub struct TlvView {
    pub kind: u16,
    pub body: Seq<u8>,
}

impl View for Tlv {
    type V = TlvView;

    open spec fn view(&self) -> TlvView {
        TlvView { kind: self.kind, body: self.body@ }
    }
}

/// Type and length in front of a value of `n` octets; what does not fit is cut.
pub open spec fn head(kind: u16, n: int, c: Frame) -> Seq<u8> {
    match c {
        Frame::Short => seq![(kind % 256) as u8] + wire::be16((n % 65536) as u16),
        Frame::Long => wire::be16(kind) + wire::be16((n % 65536) as u16),
        Frame::Split => if kind % 256 < 128 {
            seq![(kind % 256) as u8, (n % 256) as u8]
        } else {
            seq![(kind % 256) as u8] + wire::be16((n % 65536) as u16)
        },
    }
}

/// The width of type and length in front of `s`, which is not empty.
pub open spec fn head_width(s: Seq<u8>, c: Frame) -> int {
    match c {
        Frame::Short => 3,
        Frame::Long => 4,
        Frame::Split => if s[0] < 128 {
            2
        } else {
            3
        },
    }
}

/// The type in front of `s`.
pub open spec fn head_kind(s: Seq<u8>, c: Frame) -> u16 {
    match c {
        Frame::Long => wire::u16_at(s, 0),
        _ => s[0] as u16,
    }
}

/// The length in front of `s`.
pub open spec fn head_len(s: Seq<u8>, c: Frame) -> int {
    match c {
        Frame::Short => wire::u16_at(s, 1) as int,
        Frame::Long => wire::u16_at(s, 2) as int,
        Frame::Split => if s[0] < 128 {
            s[1] as int
        } else {
            wire::u16_at(s, 1) as int
        },
    }
}

/// The TLV at the front of `s`, and its length in octets.
pub open spec fn tlv_front(s: Seq<u8>, c: Frame) -> Option<(TlvView, int)> {
    let h = head_width(s, c);
    if s.len() == 0 || s.len() < h || s.len() < h + head_len(s, c) {
        None
    } else {
        let n = head_len(s, c);
        Some((TlvView { kind: head_kind(s, c), body: s.subrange(h, h + n) }, h + n))
    }
}

/// Whether type and length fit their fields.
pub open spec fn fits(v: TlvView, c: Frame) -> bool {
    &&& (c is Long || v.kind < 256)
    &&& v.body.len() <= 65535
    &&& (c is Split && v.kind < 128 ==> v.body.len() <= 255)
}

/// Append type and length.
pub fn push_head(out: &mut Vec<u8>, kind: u16, n: usize, c: Frame)
    ensures
        final(out)@ == old(out)@ + head(kind, n as int, c),
{
    match c {
        Frame::Short => {
            out.push((kind % 256) as u8);
            wire::push_u16(out, (n % 65536) as u16);
        },
        Frame::Long => {
            wire::push_u16(out, kind);
            wire::push_u16(out, (n % 65536) as u16);
        },
        Frame::Split => {
            out.push((kind % 256) as u8);
            if kind % 256 < 128 {
                out.push((n % 256) as u8);
            } else {
                wire::push_u16(out, (n % 65536) as u16);
            }
        },
    }
    assert(out@ =~= old(out)@ + head(kind, n as int, c));
}

/// Append a TLV.
pub fn push_tlv(out: &mut Vec<u8>, kind: u16, body: &[u8], c: Frame)
    ensures
        final(out)@ == old(out)@ + Tlv::octets((TlvView { kind, body: body@ }), c),
{
    push_head(out, kind, body.len(), c);
    wire::push_all(out, body);
    assert(out@ =~= old(out)@ + Tlv::octets((TlvView { kind, body: body@ }), c));
}

proof fn lemma_head(kind: u16, n: int, c: Frame, rest: Seq<u8>)
    requires
        c is Long || kind < 256,
        0 <= n <= 65535,
        c is Split && kind < 128 ==> n <= 255,
    ensures
        ({
            let s = head(kind, n, c) + rest;
            &&& s.len() > 0
            &&& head(kind, n, c).len() == head_width(s, c)
            &&& head_kind(s, c) == kind
            &&& head_len(s, c) == n
        }),
{
    let s = head(kind, n, c) + rest;
    let one = seq![(kind % 256) as u8];
    match c {
        Frame::Short => {
            wire::lemma_u16_back(one, n as u16, rest);
        },
        Frame::Long => {
            wire::lemma_u16_back(wire::be16(kind), n as u16, rest);
            assert(s =~= Seq::<u8>::empty() + wire::be16(kind) + (wire::be16(n as u16) + rest));
            wire::lemma_u16_back(Seq::empty(), kind, wire::be16(n as u16) + rest);
        },
        Frame::Split => {
            if kind < 128 {
            } else {
                wire::lemma_u16_back(one, n as u16, rest);
            }
        },
    }
}

/// A TLV that fits its fields is read back, from in front of anything.
pub proof fn lemma_tlv_round_trip(v: TlvView, c: Frame, rest: Seq<u8>)
    requires
        fits(v, c),
    ensures
        Tlv::octets(v, c).len() > 0,
        tlv_front(Tlv::octets(v, c) + rest, c) == Some((v, Tlv::octets(v, c).len() as int)),
{
    let n = v.body.len() as int;
    let h = head(v.kind, n, c);
    let s = Tlv::octets(v, c) + rest;
    lemma_head(v.kind, n, c, v.body + rest);
    assert(s =~= h + (v.body + rest));
    assert(s.subrange(h.len() as int, h.len() + n) =~= v.body);
}

impl Record for Tlv {
    type Ctx = Frame;

    open spec fn carried(v: TlvView, c: Frame) -> bool {
        fits(v, c)
    }

    open spec fn octets(v: TlvView, c: Frame) -> Seq<u8> {
        head(v.kind, v.body.len() as int, c) + v.body
    }

    open spec fn front(s: Seq<u8>, c: Frame) -> Option<(TlvView, int)> {
        tlv_front(s, c)
    }

    proof fn lemma_front(v: TlvView, c: Frame, rest: Seq<u8>) {
        lemma_tlv_round_trip(v, c, rest);
    }

    fn write(&self, out: &mut Vec<u8>, c: Frame) {
        push_tlv(out, self.kind, self.body.as_slice(), c);
    }

    fn read(s: &[u8], c: Frame) -> (r: Option<(Tlv, usize)>) {
        let h: usize = match c {
            Frame::Short => 3,
            Frame::Long => 4,
            Frame::Split => if s[0] < 128 {
                2
            } else {
                3
            },
        };
        if s.len() < h {
            return None;
        }
        let kind: u16 = match c {
            Frame::Long => wire::read_u16(s, 0),
            _ => s[0] as u16,
        };
        let n: usize = match c {
            Frame::Short => wire::read_u16(s, 1) as usize,
            Frame::Long => wire::read_u16(s, 2) as usize,
            Frame::Split => if s[0] < 128 {
                s[1] as usize
            } else {
                wire::read_u16(s, 1) as usize
            },
        };
        if s.len() - h < n {
            return None;
        }
        Some((Tlv { kind, body: wire::copy_of(&s[h..h + n]) }, h + n))
    }
}

/// A TLV in each framing, octet by octet: where type and length stand, what follows, and
/// when it is refused as cut short.
pub proof fn lemma_each_framing(s: Seq<u8>, c: Frame)
    ensures
        ({
            let wide = c is Short || (c is Split && s[0] >= 128);
            let r = tlv_front(s, c);
            &&& c is Long ==> (r is Some <==> s.len() >= 4 && s.len() >= 4 + s[2] * 256 + s[3])
            &&& wide && s.len() > 0 ==> (r is Some <==> s.len() >= 3 && s.len() >= 3 + s[1] * 256
                + s[2])
            &&& c is Split && s[0] < 128 ==> (r is Some <==> s.len() >= 2 && s.len() >= 2 + s[1])
            &&& s.len() == 0 ==> r is None
            &&& r matches Some((t, used)) ==> {
                let at = if c is Long {
                    4int
                } else if wide {
                    3
                } else {
                    2
                };
                &&& c is Long ==> t.kind == s[0] * 256 + s[1]
                &&& c !is Long ==> t.kind == s[0]
                &&& used == at + t.body.len()
                &&& t.body == s.subrange(at, used)
            }
        }),
{
}

} // verus!
