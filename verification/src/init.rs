//! The packets that bring the mixer into its working state, in the order in
//! which they are sent.
use vstd::prelude::*;
use vstd::slice::slice_to_vec;
use vstd::arithmetic::div_mod::lemma_fundamental_div_mod_converse;
use crate::packet::{Packet, PacketBuilder, PacketView, CMD, SUBCMD};
use crate::payload::pari::{Pari, PariView, pari_wire};
use crate::payload::mprm::{Mixer, Mprm, MixerView, mprm_wire};

verus! {

/// The bit pattern of the level -145.0, which mutes a channel.
pub const MUTE: u32 = 0xC311_0000;

/// The initial level of channel `ch` on bus `bus` at position `pos`: input
/// channels (below 16) are muted; each pair of DAW channels from 16 on is
/// routed to one bus (or to bus 4, the stereo bus), the even channel at
/// position 0 and the odd one at position 1.
pub open spec fn init_level(bus: u8, pos: u8, ch: u8) -> u32 {
    if ch >= 16 && (bus == 4 || bus == (ch - 16) / 2) && pos == ch % 2 {
        0
    } else {
        MUTE
    }
}

/// The `j`-th initial mixer setting: buses 0 to 3 in turn, position 0,
/// channels 0 to 24.
pub open spec fn init_mixer(j: int) -> MixerView {
    MixerView {
        channel: (j % 25) as u16,
        bus: (j / 25) as u8,
        position: 0,
        value: init_level((j / 25) as u8, 0, (j % 25) as u8),
    }
}

/// The 100 initial mixer settings.
pub open spec fn init_mixers() -> Seq<MixerView> {
    Seq::new(100, |j: int| init_mixer(j))
}

/// A parameter packet with sequence number `seq`.
pub open spec fn pari_packet(seq: int, bank: u32, p: PariView) -> PacketView {
    PacketView {
        id: 0x0101,
        seq: seq as u32,
        cmd: Some(CMD::ApplSetP),
        bank: Some(bank),
        subcmd: Some(SUBCMD::Pari),
        payload: Some(pari_wire(p)),
    }
}

/// A mixer batch packet with sequence number `seq`.
pub open spec fn mprm_packet(seq: int, ms: Seq<MixerView>) -> PacketView {
    PacketView {
        id: 0x0101,
        seq: seq as u32,
        cmd: Some(CMD::SetP),
        bank: Some(0),
        subcmd: Some(SUBCMD::Mprm),
        payload: Some(mprm_wire(ms)),
    }
}

/// The 19 packets sent after sequence number `s`, numbered from `s + 1`:
/// enable the mixer, the mixer settings in batches of at most 60, disable
/// the startup state, then reset channels 0 to 14 on bank 1.
pub open spec fn init_sequence(s: u32) -> Seq<PacketView> {
    seq![
        pari_packet(s + 1, 0, PariView { channel: 0, bus: 0, value: 4 }),
        mprm_packet(s + 2, init_mixers().subrange(0, 60)),
        mprm_packet(s + 3, init_mixers().subrange(60, 100)),
        pari_packet(s + 4, 0, PariView { channel: 0, bus: 1, value: 0 }),
    ] + Seq::new(
        15,
        |k: int| pari_packet(s + 5 + k, 1, PariView { channel: k as u32, bus: 0, value: 0 }),
    )
}

/// The views of a sequence of packets.
pub open spec fn views(ps: Seq<Packet>) -> Seq<PacketView> {
    ps.map_values(|p: Packet| p@)
}

/// The views of a sequence of mixer settings.
pub open spec fn mixer_views(ms: Seq<Mixer>) -> Seq<MixerView> {
    ms.map_values(|m: Mixer| m@)
}

/// Pushing a packet pushes its view.
proof fn lemma_views_push(ps: Seq<Packet>, p: Packet)
    ensures
        views(ps.push(p)) == views(ps).push(p@),
{
    assert(views(ps.push(p)) =~= views(ps).push(p@));
}

/// The parameter packet numbered `seq` carrying `p`.
fn pari_packet_of(seq: u32, bank: u32, p: Pari) -> (r: Packet)
    ensures
        r@ == pari_packet(seq as int, bank, p@),
{
    let payload = p.to_bytes();
    PacketBuilder::pari(seq, bank, slice_to_vec(payload.as_slice())).build().unwrap()
}

/// The mixer batch packet numbered `seq` carrying `mixers`.
fn mprm_packet_of(seq: u32, mixers: Vec<Mixer>) -> (r: Packet)
    requires
        mixers@.len() <= 60,
    ensures
        r@ == mprm_packet(seq as int, mixer_views(mixers@)),
{
    let payload = Mprm::new(mixers).to_bytes();
    PacketBuilder::mprm(seq, slice_to_vec(payload.as_slice())).build().unwrap()
}

/// The initial level computed as the device expects it.
fn level(bus: u8, pos: u8, ch: u8) -> (r: u32)
    ensures
        r == init_level(bus, pos, ch),
{
    let mut value: u32 = MUTE;
    if ch >= 16 {
        let d = ch - 16;
        assert(d >> 1 == d / 2) by (bit_vector);
        assert(ch & 1 == ch % 2) by (bit_vector);
        if bus == 4 || bus == (d >> 1) {
            if pos == (ch & 1) {
                value = 0;
            }
        }
    }
    value
}

/// The packets that bring the mixer into its working state (see
/// `init_sequence`), numbered on from `seq`, which ends at the last number
/// used.
pub fn init_packets(seq: &mut u32) -> (r: Vec<Packet>)
    requires
        *old(seq) + 19 <= u32::MAX,
    ensures
        *final(seq) == *old(seq) + 19,
        views(r@) == init_sequence(*old(seq)),
{
    let ghost s0: u32 = *seq;
    let ghost all = init_sequence(s0);
    let mut pkts: Vec<Packet> = Vec::new();
    let mut mixers: Vec<Mixer> = Vec::new();
    *seq = *seq + 1;
    pkts.push(pari_packet_of(*seq, 0, Pari::new(0, 0, 4)));
    assert(views(pkts@) =~= all.take(1));
    let ghost mut nb: int = 0;
    for bus in 0..4u8
        invariant
            s0 + 19 <= u32::MAX,
            all == init_sequence(s0),
            0 <= nb <= 1,
            mixers@.len() == bus * 25 - 60 * nb,
            mixers@.len() < 60,
            *seq == s0 + 1 + nb,
            views(pkts@) == all.take(1 + nb),
            mixer_views(mixers@) == init_mixers().subrange(60 * nb, bus * 25),
    {
        for pos in 0..1u8
            invariant
                bus < 4,
                s0 + 19 <= u32::MAX,
                all == init_sequence(s0),
                0 <= nb <= 1,
                mixers@.len() == bus * 25 + pos * 25 - 60 * nb,
                mixers@.len() < 60,
                *seq == s0 + 1 + nb,
                views(pkts@) == all.take(1 + nb),
                mixer_views(mixers@) == init_mixers().subrange(60 * nb, bus * 25 + pos * 25),
        {
            for ch in 0..25u8
                invariant
                    bus < 4,
                    pos == 0,
                    s0 + 19 <= u32::MAX,
                    all == init_sequence(s0),
                    0 <= nb <= 1,
                    mixers@.len() == bus * 25 + ch - 60 * nb,
                    mixers@.len() < 60,
                    *seq == s0 + 1 + nb,
                    views(pkts@) == all.take(1 + nb),
                    mixer_views(mixers@) == init_mixers().subrange(60 * nb, bus * 25 + ch),
            {
                let ghost k: int = bus * 25 + ch;
                proof {
                    lemma_fundamental_div_mod_converse(k, 25, bus as int, ch as int);
                }
                let value = level(bus, pos, ch);
                mixers.push(Mixer::new(ch as u16, bus, pos, value));
                assert(mixer_views(mixers@) =~= init_mixers().subrange(60 * nb, k + 1));
                if mixers.len() == 60 {
                    *seq = *seq + 1;
                    let batch = mixers;
                    mixers = Vec::new();
                    let ghost prev = pkts@;
                    proof {
                        assert(nb == 0);
                        assert(k + 1 == 60);
                        assert(mixer_views(batch@) == init_mixers().subrange(0, 60));
                        assert(all[1] == mprm_packet(s0 + 2, init_mixers().subrange(0, 60)));
                    }
                    let pkt = mprm_packet_of(*seq, batch);
                    assert(pkt@ == all[1]);
                    pkts.push(pkt);
                    proof {
                        lemma_views_push(prev, pkt);
                        assert(all.take(1).push(all[1]) =~= all.take(2));
                        nb = nb + 1;
                        assert(views(pkts@) =~= all.take(1 + nb));
                        assert(mixer_views(mixers@) =~= init_mixers().subrange(60 * nb, k + 1));
                    }
                }
            }
        }
    }
    assert(nb == 1);
    if mixers.len() > 0 {
        *seq = *seq + 1;
        let batch = mixers;
        pkts.push(mprm_packet_of(*seq, batch));
        assert(views(pkts@) =~= all.take(3));
    }
    *seq = *seq + 1;
    pkts.push(pari_packet_of(*seq, 0, Pari::new(0, 1, 0)));
    assert(views(pkts@) =~= all.take(4));
    for ch in 0..15u32
        invariant
            s0 + 19 <= u32::MAX,
            all == init_sequence(s0),
            *seq == s0 + 4 + ch,
            views(pkts@) == all.take(4 + ch),
    {
        *seq = *seq + 1;
        assert(all[4 + ch] == pari_packet(
            s0 + 5 + ch,
            1,
            PariView { channel: ch as u32, bus: 0, value: 0 },
        ));
        let ghost prev = pkts@;
        let pkt = pari_packet_of(*seq, 1, Pari::new(ch, 0, 0));
        pkts.push(pkt);
        proof {
            lemma_views_push(prev, pkt);
            assert(all.take(4 + ch).push(all[4 + ch]) =~= all.take(4 + ch + 1));
        }
    }
    assert(all.take(19) =~= all);
    pkts
}

} // verus!

verus! {

/// The initial packets are numbered consecutively after `s`, and their
/// mixer batches hold the 100 initial settings in order, at most 60 each.
pub proof fn lemma_init_sequence_numbering(s: u32)
    requires
        s + 19 <= u32::MAX,
    ensures
        init_sequence(s).len() == 19,
        forall|i: int| 0 <= i < 19 ==> #[trigger] init_sequence(s)[i].seq == s + 1 + i,
        init_mixers().subrange(0, 60) + init_mixers().subrange(60, 100) == init_mixers(),
{
    let q = init_sequence(s);
    assert forall|i: int| 0 <= i < 19 implies #[trigger] q[i].seq == s + 1 + i by {
        if i >= 4 {
            assert(q[i] == pari_packet(s + 5 + (i - 4), 1, PariView { channel: (i - 4) as u32, bus: 0, value: 0 }));
        }
    }
    assert(init_mixers().subrange(0, 60) + init_mixers().subrange(60, 100) =~= init_mixers());
}

} // verus!

verus! {

/// A parameter packet numbered `seq` on bank `bank` with the given 12
/// payload bytes.
pub open spec fn pari_packet_bytes(seq: int, bank: u32, payload: Seq<u8>) -> PacketView {
    PacketView {
        id: 0x0101,
        seq: seq as u32,
        cmd: Some(CMD::ApplSetP),
        bank: Some(bank),
        subcmd: Some(SUBCMD::Pari),
        payload: Some(payload),
    }
}

/// The parameter packets of the initialisation, byte by byte: the first
/// (bank 0) sets channel 0, bus 0 to 4; the fourth (bank 0) sets channel 0,
/// bus 1 to 0; packet `4 + k`, for `k` from 0 to 14, is on bank 1 and sets
/// channel `k`, bus 0 to 0, so the 15 resets address channels 0 to 14 in
/// order, each once.
pub proof fn lemma_init_parameter_packets(s: u32)
    requires
        s + 19 <= u32::MAX,
    ensures
        init_sequence(s)[0] == pari_packet_bytes(
            s + 1,
            0,
            seq![0u8, 0, 0, 0, 0, 0, 0, 0, 4, 0, 0, 0],
        ),
        init_sequence(s)[3] == pari_packet_bytes(
            s + 4,
            0,
            seq![0u8, 0, 0, 0, 1, 0, 0, 0, 0, 0, 0, 0],
        ),
        forall|k: int|
            0 <= k < 15 ==> #[trigger] init_sequence(s)[4 + k] == pari_packet_bytes(
                s + 5 + k,
                1,
                seq![k as u8, 0, 0, 0, 0, 0, 0, 0, 0, 0, 0, 0],
            ),
        forall|k1: int, k2: int|
            0 <= k1 < k2 < 15 ==> #[trigger] init_sequence(s)[4 + k1].payload != #[trigger] init_sequence(
                s,
            )[4 + k2].payload,
{
    let q = init_sequence(s);
    assert(pari_wire(PariView { channel: 0, bus: 0, value: 4 }) =~= seq![
        0u8,
        0,
        0,
        0,
        0,
        0,
        0,
        0,
        4,
        0,
        0,
        0,
    ]);
    assert(pari_wire(PariView { channel: 0, bus: 1, value: 0 }) =~= seq![
        0u8,
        0,
        0,
        0,
        1,
        0,
        0,
        0,
        0,
        0,
        0,
        0,
    ]);
    assert forall|k: int| 0 <= k < 15 implies #[trigger] q[4 + k] == pari_packet_bytes(
        s + 5 + k,
        1,
        seq![k as u8, 0, 0, 0, 0, 0, 0, 0, 0, 0, 0, 0],
    ) by {
        assert(q[4 + k] == pari_packet(
            s + 5 + k,
            1,
            PariView { channel: k as u32, bus: 0, value: 0 },
        ));
        assert(pari_wire(PariView { channel: k as u32, bus: 0, value: 0 }) =~= seq![
            k as u8,
            0,
            0,
            0,
            0,
            0,
            0,
            0,
            0,
            0,
            0,
            0,
        ]);
    }
    assert forall|k1: int, k2: int| 0 <= k1 < k2 < 15 implies #[trigger] q[4 + k1].payload
        != #[trigger] q[4 + k2].payload by {
        assert(q[4 + k1].payload.unwrap()[0] == k1 as u8);
        assert(q[4 + k2].payload.unwrap()[0] == k2 as u8);
    }
}

/// The mixer settings of the initialisation: setting `j` (0 to 99) is
/// channel `j % 25` on bus `j / 25` at position 0, at level 0 when the
/// channel is a DAW channel (16 or above) whose pair `(channel - 16) / 2` is
/// the bus and which is even, and muted (the bits of -145.0) otherwise; the
/// first batch holds settings 0..60, the second 60..100.
pub proof fn lemma_init_mixer_packets(s: u32)
    requires
        s + 19 <= u32::MAX,
    ensures
        init_mixers().len() == 100,
        forall|j: int|
            0 <= j < 100 ==> {
                &&& (#[trigger] init_mixers()[j]).channel == j % 25
                &&& init_mixers()[j].bus == j / 25
                &&& init_mixers()[j].position == 0
                &&& init_mixers()[j].value == if j % 25 >= 16 && j / 25 == (j % 25 - 16) / 2 && (j
                    % 25) % 2 == 0 {
                    0u32
                } else {
                    0xC311_0000u32
                }
            },
        init_sequence(s)[1] == (PacketView {
            id: 0x0101,
            seq: (s + 2) as u32,
            cmd: Some(CMD::SetP),
            bank: Some(0),
            subcmd: Some(SUBCMD::Mprm),
            payload: Some(mprm_wire(init_mixers().subrange(0, 60))),
        }),
        init_sequence(s)[2] == (PacketView {
            id: 0x0101,
            seq: (s + 3) as u32,
            cmd: Some(CMD::SetP),
            bank: Some(0),
            subcmd: Some(SUBCMD::Mprm),
            payload: Some(mprm_wire(init_mixers().subrange(60, 100))),
        }),
{
}

} // verus!
