//! `Mprm`: a batch of up to 60 mixer settings.
use vstd::prelude::*;
use vstd::slice::slice_subrange;
use crate::wire::{u16_le, u16_of, u32_le, u32_of, zeros, put_u16_le, put_u32_le,
    put_bytes, read_u16_le, read_u32_le, lemma_u16_roundtrip, lemma_u32_roundtrip,
    lemma_u16_bytes_roundtrip, lemma_u32_bytes_roundtrip};

verus! {

/// One mixer setting: the level of a channel on a bus and position. The
/// level is a 32-bit float on the wire; it is held as its bit pattern.
#[derive(Clone, Copy)]
pub struct Mixer {
    channel: u16,
    bus: u8,
    position: u8,
    value: u32,
}

/// What a `Mixer` holds.
pub ghost struct MixerView {
    pub channel: u16,
    pub bus: u8,
    pub position: u8,
    pub value: u32,
}

impl View for Mixer {
    type V = MixerView;

    closed spec fn view(&self) -> MixerView {
        MixerView {
            channel: self.channel,
            bus: self.bus,
            position: self.position,
            value: self.value,
        }
    }
}

/// The 8-byte encoding of a mixer setting.
pub open spec fn mixer_wire(m: MixerView) -> Seq<u8> {
    u16_le(m.channel) + seq![m.bus, m.position] + u32_le(m.value)
}

/// The mixer setting that the first 8 bytes of `d` encode.
pub open spec fn mixer_of(d: Seq<u8>) -> MixerView {
    MixerView {
        channel: u16_of(d.subrange(0, 2)),
        bus: d[2],
        position: d[3],
        value: u32_of(d.subrange(4, 8)),
    }
}

impl Mixer {
    /// A mixer setting; `value` is the bit pattern of the level.
    pub fn new(channel: u16, bus: u8, position: u8, value: u32) -> (r: Self)
        ensures
            r@ == (MixerView { channel, bus, position, value }),
    {
        Self { channel, bus, position, value }
    }

    /// The 8-byte encoding: channel, bus, position, level bits.
    fn to_bytes(&self) -> (r: [u8; 8])
        ensures
            r@ == mixer_wire(self@),
    {
        let mut buf = [0u8; 8];
        put_u16_le(&mut buf, 0, self.channel);
        buf[2] = self.bus;
        buf[3] = self.position;
        put_u32_le(&mut buf, 4, self.value);
        assert(buf@ =~= mixer_wire(self@));
        buf
    }

    /// Reads a mixer setting from the first 8 bytes of `data`; `None` when
    /// `size`, the number of bytes announced, is below 8.
    pub fn parse(data: &[u8], size: usize) -> (r: Option<Self>)
        requires
            size < 8 || data@.len() >= 8,
        ensures
            r is None <==> size < 8,
            r matches Some(m) ==> m@ == mixer_of(data@),
    {
        if size < 8 {
            return None;
        }
        let channel = read_u16_le(data, 0);
        let bus = data[2];
        let pos = data[3];
        let value = read_u32_le(data, 4);
        Some(Self::new(channel, bus, pos, value))
    }
}

/// The concatenated encodings of a sequence of mixer settings.
pub open spec fn mixers_wire(ms: Seq<MixerView>) -> Seq<u8>
    decreases ms.len(),
{
    if ms.len() == 0 {
        Seq::empty()
    } else {
        mixers_wire(ms.drop_last()) + mixer_wire(ms.last())
    }
}

/// The 488-byte encoding of a batch: 4 zero bytes, the mixer settings,
/// zero bytes up to offset 484, then the number of settings.
pub open spec fn mprm_wire(ms: Seq<MixerView>) -> Seq<u8> {
    zeros(4) + mixers_wire(ms) + zeros((480 - 8 * ms.len()) as nat) + u32_le(ms.len() as u32)
}

/// The 60 mixer settings read from the first 480 bytes of `d`.
pub open spec fn mprm_of(d: Seq<u8>) -> Seq<MixerView> {
    Seq::new(60, |i: int| mixer_of(d.subrange(8 * i, 8 * i + 8)))
}

/// A batch of mixer settings.
pub struct Mprm {
    mixers: Vec<Mixer>,
}

impl View for Mprm {
    type V = Seq<MixerView>;

    closed spec fn view(&self) -> Seq<MixerView> {
        self.mixers@.map_values(|m: Mixer| m@)
    }
}

impl Mprm {
    /// A batch holds at most 60 settings.
    #[verifier::type_invariant]
    closed spec fn fits(&self) -> bool {
        self.mixers@.len() <= 60
    }

    /// A batch of the given settings; there may be at most 60.
    pub fn new(mixers: Vec<Mixer>) -> (r: Self)
        requires
            mixers@.len() <= 60,
        ensures
            r@ == mixers@.map_values(|m: Mixer| m@),
    {
        Self { mixers: mixers }
    }

    /// The 488-byte encoding of the batch.
    pub fn to_bytes(&self) -> (r: [u8; 488])
        ensures
            self@.len() <= 60,
            r@ == mprm_wire(self@),
    {
        proof {
            use_type_invariant(self);
        }
        let mut buf = [0u8; 488];
        let mut offset: usize = 4;
        let n = self.mixers.len();
        let mut i: usize = 0;
        assert(buf@ =~= zeros(4) + mixers_wire(self@.take(0)) + zeros(484));
        while i < n
            invariant
                n == self.mixers@.len(),
                n <= 60,
                i <= n,
                offset == 4 + 8 * i,
                buf@ == zeros(4) + mixers_wire(self@.take(i as int)) + zeros(
                    (484 - 8 * i) as nat,
                ),
                self@.len() == n,
            decreases n - i,
        {
            proof {
                lemma_mixers_wire_len(self@.take(i as int));
            }
            let m = self.mixers[i].to_bytes();
            put_bytes(&mut buf, offset, &m);
            proof {
                let prev = self@.take(i as int);
                let next = self@.take(i + 1);
                assert(next.drop_last() =~= prev);
                assert(next.last() == self.mixers@[i as int]@);
                assert(buf@ =~= zeros(4) + mixers_wire(next) + zeros((484 - 8 * (i + 1)) as nat));
            }
            offset = offset + 8;
            i = i + 1;
        }
        proof {
            assert(self@.take(n as int) =~= self@);
            lemma_mixers_wire_len(self@);
        }
        put_u32_le(&mut buf, 484, n as u32);
        assert(buf@ =~= mprm_wire(self@));
        buf
    }

    /// Reads 60 mixer settings from the first 480 bytes of `data`; `None`
    /// when `size`, the number of bytes announced, is below 488.
    pub fn parse(data: &[u8], size: u32) -> (r: Option<Self>)
        requires
            size < 488 || data@.len() >= 480,
        ensures
            r is None <==> size < 488,
            r matches Some(m) ==> m@ == mprm_of(data@),
    {
        if size < 488 {
            return None;
        }
        let mut mixers: Vec<Mixer> = Vec::new();
        let mut idx: usize = 0;
        while idx < 60
            invariant
                idx <= 60,
                data@.len() >= 480,
                mixers@.len() == idx,
                forall|k: int|
                    0 <= k < idx ==> (#[trigger] mixers@[k])@ == mixer_of(
                        data@.subrange(8 * k, 8 * k + 8),
                    ),
            decreases 60 - idx,
        {
            let offset = idx * 8;
            let chunk = slice_subrange(data, offset, offset + 8);
            match Mixer::parse(chunk, 8) {
                Some(m) => {
                    mixers.push(m);
                },
                None => {},
            }
            idx = idx + 1;
        }
        let r = Self::new(mixers);
        assert(r@ =~= mprm_of(data@));
        Some(r)
    }
}

/// The encodings of `n` mixer settings take `8 * n` bytes.
pub proof fn lemma_mixers_wire_len(ms: Seq<MixerView>)
    ensures
        mixers_wire(ms).len() == 8 * ms.len(),
    decreases ms.len(),
{
    if ms.len() > 0 {
        lemma_mixers_wire_len(ms.drop_last());
    }
}

/// Reading back the encoding of a mixer setting gives it back.
pub proof fn lemma_mixer_roundtrip(m: MixerView)
    ensures
        mixer_wire(m).len() == 8,
        mixer_of(mixer_wire(m)) == m,
{
    let w = mixer_wire(m);
    assert(w.subrange(0, 2) =~= u16_le(m.channel));
    assert(w.subrange(4, 8) =~= u32_le(m.value));
    lemma_u16_roundtrip(m.channel);
    lemma_u32_roundtrip(m.value);
}

/// Encoding what was read from 8 or more bytes gives back the first 8.
pub proof fn lemma_mixer_reencode(d: Seq<u8>)
    requires
        d.len() >= 8,
    ensures
        mixer_wire(mixer_of(d)) == d.take(8),
{
    lemma_u16_bytes_roundtrip(d.subrange(0, 2));
    lemma_u32_bytes_roundtrip(d.subrange(4, 8));
    assert(mixer_wire(mixer_of(d)) =~= d.take(8));
}

/// Encoding the first `k` settings read from `d` gives back its first
/// `8 * k` bytes.
proof fn lemma_mixers_reencode_prefix(d: Seq<u8>, k: int)
    requires
        0 <= k <= 60,
        d.len() >= 480,
    ensures
        mixers_wire(mprm_of(d).take(k)) == d.take(8 * k),
    decreases k,
{
    if k > 0 {
        lemma_mixers_reencode_prefix(d, k - 1);
        let ms = mprm_of(d).take(k);
        assert(ms.drop_last() =~= mprm_of(d).take(k - 1));
        let chunk = d.subrange(8 * (k - 1), 8 * k);
        lemma_mixer_reencode(chunk);
        assert(chunk.take(8) =~= chunk);
        assert(d.take(8 * k) =~= d.take(8 * (k - 1)) + chunk);
    } else {
        assert(d.take(0) =~= Seq::<u8>::empty());
    }
}

/// Encoding the batch read from 480 or more bytes gives 4 zero bytes, the
/// first 480 bytes, and the count 60. The batch is read from offset 0 but
/// written from offset 4, so reading back an encoded batch shifts every
/// setting by 4 bytes.
pub proof fn lemma_mprm_reencode(d: Seq<u8>)
    requires
        d.len() >= 480,
    ensures
        mprm_wire(mprm_of(d)) == zeros(4) + d.take(480) + u32_le(60),
{
    lemma_mixers_reencode_prefix(d, 60);
    assert(mprm_of(d).take(60) =~= mprm_of(d));
    assert(zeros(0) =~= Seq::<u8>::empty());
    assert(mprm_wire(mprm_of(d)) =~= zeros(4) + d.take(480) + u32_le(60));
}

} // verus!

verus! {

/// The encoding of a mixer setting is the channel (least significant byte
/// first), the bus, the position, and the level bits (least significant
/// byte first).
pub proof fn lemma_mixer_layout(m: MixerView)
    ensures
        mixer_wire(m).len() == 8,
        mixer_wire(m)[0] == m.channel % 256,
        mixer_wire(m)[1] == m.channel / 256,
        mixer_wire(m)[2] == m.bus,
        mixer_wire(m)[3] == m.position,
        mixer_wire(m)[4] == m.value % 256,
        mixer_wire(m)[5] == (m.value / 256) % 256,
        mixer_wire(m)[6] == (m.value / 65536) % 256,
        mixer_wire(m)[7] == m.value / 16777216,
{
}

/// Reading a mixer setting takes the channel from bytes 0..2, the bus and
/// position from bytes 2 and 3 and the level bits from bytes 4..8, least
/// significant byte first.
pub proof fn lemma_mixer_of_layout(d: Seq<u8>)
    requires
        d.len() >= 8,
    ensures
        mixer_of(d).channel == d[0] + d[1] * 256,
        mixer_of(d).bus == d[2],
        mixer_of(d).position == d[3],
        mixer_of(d).value == d[4] + d[5] * 256 + d[6] * 65536 + d[7] * 16777216,
{
}

/// Byte `k` of the `i`-th encoded setting stands at `8 * i + k`.
proof fn lemma_mixers_wire_index(ms: Seq<MixerView>, i: int, k: int)
    requires
        0 <= i < ms.len(),
        0 <= k < 8,
    ensures
        mixers_wire(ms).len() == 8 * ms.len(),
        mixers_wire(ms)[8 * i + k] == mixer_wire(ms[i])[k],
    decreases ms.len(),
{
    lemma_mixers_wire_len(ms);
    lemma_mixers_wire_len(ms.drop_last());
    lemma_mixer_layout(ms.last());
    if i < ms.len() - 1 {
        lemma_mixers_wire_index(ms.drop_last(), i, k);
    }
}

/// The encoding of a batch of at most 60 settings: 4 zero bytes, setting `i`
/// at offset `4 + 8 * i`, zero bytes up to offset 484, then the number of
/// settings, least significant byte first.
pub proof fn lemma_mprm_layout(ms: Seq<MixerView>)
    requires
        ms.len() <= 60,
    ensures
        mprm_wire(ms).len() == 488,
        forall|j: int| 0 <= j < 4 ==> mprm_wire(ms)[j] == 0,
        forall|i: int, k: int|
            0 <= i < ms.len() && 0 <= k < 8 ==> mprm_wire(ms)[4 + 8 * i + k] == #[trigger] mixer_wire(
                ms[i],
            )[k],
        forall|j: int| 4 + 8 * ms.len() <= j < 484 ==> mprm_wire(ms)[j] == 0,
        mprm_wire(ms)[484] == ms.len(),
        mprm_wire(ms)[485] == 0,
        mprm_wire(ms)[486] == 0,
        mprm_wire(ms)[487] == 0,
{
    lemma_mixers_wire_len(ms);
    assert forall|i: int, k: int| 0 <= i < ms.len() && 0 <= k < 8 implies mprm_wire(ms)[4 + 8 * i
        + k] == #[trigger] mixer_wire(ms[i])[k] by {
        lemma_mixers_wire_index(ms, i, k);
    }
}

/// Reading a batch takes setting `i` from bytes `8 * i .. 8 * i + 8`, for
/// each of the 60 settings.
pub proof fn lemma_mprm_of_layout(d: Seq<u8>)
    requires
        d.len() >= 480,
    ensures
        mprm_of(d).len() == 60,
        forall|i: int|
            0 <= i < 60 ==> {
                &&& (#[trigger] mprm_of(d)[i]).channel == d[8 * i] + d[8 * i + 1] * 256
                &&& mprm_of(d)[i].bus == d[8 * i + 2]
                &&& mprm_of(d)[i].position == d[8 * i + 3]
                &&& mprm_of(d)[i].value == d[8 * i + 4] + d[8 * i + 5] * 256 + d[8 * i + 6]
                    * 65536 + d[8 * i + 7] * 16777216
            },
{
    assert forall|i: int| 0 <= i < 60 implies {
        &&& (#[trigger] mprm_of(d)[i]).channel == d[8 * i] + d[8 * i + 1] * 256
        &&& mprm_of(d)[i].bus == d[8 * i + 2]
        &&& mprm_of(d)[i].position == d[8 * i + 3]
        &&& mprm_of(d)[i].value == d[8 * i + 4] + d[8 * i + 5] * 256 + d[8 * i + 6] * 65536 + d[8
            * i + 7] * 16777216
    } by {
        lemma_mixer_of_layout(d.subrange(8 * i, 8 * i + 8));
    }
}

} // verus!
