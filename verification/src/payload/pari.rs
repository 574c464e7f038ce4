//! `Pari`: a single parameter assignment (channel, bus, value).
use vstd::prelude::*;
use crate::wire::{u32_le, u32_of, put_u32_le, read_u32_le,
    lemma_u32_roundtrip, lemma_u32_bytes_roundtrip};

verus! {

/// A parameter assignment.
#[derive(Clone, Copy)]
pub struct Pari {
    channel: u32,
    bus: u32,
    value: u32,
}

/// What a `Pari` holds.
pub ghost struct PariView {
    pub channel: u32,
    pub bus: u32,
    pub value: u32,
}

impl View for Pari {
    type V = PariView;

    closed spec fn view(&self) -> PariView {
        PariView { channel: self.channel, bus: self.bus, value: self.value }
    }
}

/// The 12-byte encoding of a parameter assignment.
pub open spec fn pari_wire(p: PariView) -> Seq<u8> {
    u32_le(p.channel) + u32_le(p.bus) + u32_le(p.value)
}

/// The parameter assignment that the first 12 bytes of `d` encode.
pub open spec fn pari_of(d: Seq<u8>) -> PariView {
    PariView {
        channel: u32_of(d.subrange(0, 4)),
        bus: u32_of(d.subrange(4, 8)),
        value: u32_of(d.subrange(8, 12)),
    }
}

impl Pari {
    pub fn new(channel: u32, bus: u32, value: u32) -> (r: Self)
        ensures
            r@ == (PariView { channel, bus, value }),
    {
        Self { channel, bus, value }
    }

    /// The 12-byte encoding: channel, bus and value, each little-endian.
    pub fn to_bytes(&self) -> (r: [u8; 12])
        ensures
            r@ == pari_wire(self@),
    {
        let mut buf = [0u8; 12];
        put_u32_le(&mut buf, 0, self.channel);
        put_u32_le(&mut buf, 4, self.bus);
        put_u32_le(&mut buf, 8, self.value);
        assert(buf@ =~= pari_wire(self@));
        buf
    }

    /// Reads a parameter assignment from the first 12 bytes of `data`;
    /// `None` when `size`, the number of bytes announced, is below 12.
    pub fn parse(data: &[u8], size: u32) -> (r: Option<Self>)
        requires
            size < 12 || data@.len() >= 12,
        ensures
            r is None <==> size < 12,
            r matches Some(p) ==> p@ == pari_of(data@),
    {
        if size < 12 {
            return None;
        }
        let channel = read_u32_le(data, 0);
        let bus = read_u32_le(data, 4);
        let value = read_u32_le(data, 8);
        Some(Self::new(channel, bus, value))
    }
}

/// Reading back the encoding of a parameter assignment gives it back.
pub proof fn lemma_pari_roundtrip(p: PariView)
    ensures
        pari_wire(p).len() == 12,
        pari_of(pari_wire(p)) == p,
{
    let w = pari_wire(p);
    assert(w.subrange(0, 4) =~= u32_le(p.channel));
    assert(w.subrange(4, 8) =~= u32_le(p.bus));
    assert(w.subrange(8, 12) =~= u32_le(p.value));
    lemma_u32_roundtrip(p.channel);
    lemma_u32_roundtrip(p.bus);
    lemma_u32_roundtrip(p.value);
}

/// Encoding what was read from 12 or more bytes gives back the first 12.
pub proof fn lemma_pari_reencode(d: Seq<u8>)
    requires
        d.len() >= 12,
    ensures
        pari_wire(pari_of(d)) == d.take(12),
{
    lemma_u32_bytes_roundtrip(d.subrange(0, 4));
    lemma_u32_bytes_roundtrip(d.subrange(4, 8));
    lemma_u32_bytes_roundtrip(d.subrange(8, 12));
    assert(pari_wire(pari_of(d)) =~= d.take(12));
}

} // verus!

verus! {

/// The encoding of a parameter assignment is the channel, the bus and the
/// value, each least significant byte first.
pub proof fn lemma_pari_layout(p: PariView)
    ensures
        pari_wire(p).len() == 12,
        pari_wire(p)[0] == p.channel % 256,
        pari_wire(p)[1] == (p.channel / 256) % 256,
        pari_wire(p)[2] == (p.channel / 65536) % 256,
        pari_wire(p)[3] == p.channel / 16777216,
        pari_wire(p)[4] == p.bus % 256,
        pari_wire(p)[5] == (p.bus / 256) % 256,
        pari_wire(p)[6] == (p.bus / 65536) % 256,
        pari_wire(p)[7] == p.bus / 16777216,
        pari_wire(p)[8] == p.value % 256,
        pari_wire(p)[9] == (p.value / 256) % 256,
        pari_wire(p)[10] == (p.value / 65536) % 256,
        pari_wire(p)[11] == p.value / 16777216,
{
}

/// Reading a parameter assignment takes the channel, the bus and the value
/// from bytes 0..4, 4..8 and 8..12, each least significant byte first.
pub proof fn lemma_pari_of_layout(d: Seq<u8>)
    requires
        d.len() >= 12,
    ensures
        pari_of(d).channel == d[0] + d[1] * 256 + d[2] * 65536 + d[3] * 16777216,
        pari_of(d).bus == d[4] + d[5] * 256 + d[6] * 65536 + d[7] * 16777216,
        pari_of(d).value == d[8] + d[9] * 256 + d[10] * 65536 + d[11] * 16777216,
{
}

} // verus!
