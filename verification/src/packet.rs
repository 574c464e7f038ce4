//! The packet format: an 8-byte header (body length, id, sequence number)
//! followed by an optional command, bank, sub-command and payload.
use vstd::prelude::*;
use vstd::utf8::*;
use vstd::string::*;
use vstd::slice::{slice_subrange, slice_to_vec};
use vstd::arithmetic::div_mod::lemma_add_mod_noop;
use crate::wire::{zeros, bytes_at_eq, u16_le, u16_of, u32_le, u32_of, push_u16_le, push_u32_le,
    push_bytes, read_u16_le, read_u32_le, lemma_u16_roundtrip, lemma_u32_roundtrip};
use crate::payload::pari::{Pari, pari_wire, pari_of, lemma_pari_reencode};
use crate::payload::mprm::{Mprm, mprm_wire, mprm_of, lemma_mprm_reencode};
use crate::payload::qust::{QUSt, qust_wire, qust_of, qust_readable, is_readable, lemma_qust_reencode};

verus! {

broadcast use {vstd::utf8::group_utf8_lib, vstd::string::group_string_axioms};

/// The bytes of an ASCII character sequence.
pub open spec fn ascii(s: Seq<char>) -> Seq<u8> {
    s.map_values(|c: char| c as u8)
}

/// The encoding of a name in a field of `width` bytes: its characters in
/// reverse order, followed by zero bytes.
pub open spec fn name_field(name: Seq<char>, width: nat) -> Seq<u8> {
    ascii(name).reverse() + zeros((width - name.len()) as nat)
}

/// A name of at most 8 characters below 128 is ASCII.
proof fn lemma_short_names_ascii(s: Seq<char>)
    requires
        s.len() <= 8,
        s.len() > 0 ==> '\0' <= s[0] <= '\u{7f}',
        s.len() > 1 ==> '\0' <= s[1] <= '\u{7f}',
        s.len() > 2 ==> '\0' <= s[2] <= '\u{7f}',
        s.len() > 3 ==> '\0' <= s[3] <= '\u{7f}',
        s.len() > 4 ==> '\0' <= s[4] <= '\u{7f}',
        s.len() > 5 ==> '\0' <= s[5] <= '\u{7f}',
        s.len() > 6 ==> '\0' <= s[6] <= '\u{7f}',
        s.len() > 7 ==> '\0' <= s[7] <= '\u{7f}',
    ensures
        is_ascii_chars(s),
{
    assert forall|i| 0 <= i < s.len() implies '\0' <= #[trigger] s[i] <= '\u{7f}' by {
        if i == 0 {} else if i == 1 {} else if i == 2 {} else if i == 3 {}
        else if i == 4 {} else if i == 5 {} else if i == 6 {} else {}
    }
}

/// The commands a packet can carry.
#[derive(Clone, Copy, PartialEq, Eq, Structural, Debug)]
pub enum CMD {
    ApplGetP,
    ApplSetP,
    ApplRply,
    SetP,
    Rply,
}

/// The name of a command.
pub open spec fn cmd_name(c: CMD) -> Seq<char> {
    match c {
        CMD::ApplGetP => seq!['A', 'p', 'p', 'l', 'G', 'e', 't', 'P'],
        CMD::ApplSetP => seq!['A', 'p', 'p', 'l', 'S', 'e', 't', 'P'],
        CMD::ApplRply => seq!['A', 'p', 'p', 'l', 'R', 'p', 'l', 'y'],
        CMD::SetP => seq!['S', 'e', 't', 'P'],
        CMD::Rply => seq!['R', 'p', 'l', 'y'],
    }
}

/// The 8 bytes that stand for a command on the wire.
pub open spec fn cmd_wire(c: CMD) -> Seq<u8> {
    name_field(cmd_name(c), 8)
}

/// The command that the first 8 bytes of `b` stand for, if any.
pub open spec fn cmd_of_wire(b: Seq<u8>) -> Option<CMD> {
    if b.len() < 8 {
        None
    } else if b.take(8) == cmd_wire(CMD::ApplGetP) {
        Some(CMD::ApplGetP)
    } else if b.take(8) == cmd_wire(CMD::ApplSetP) {
        Some(CMD::ApplSetP)
    } else if b.take(8) == cmd_wire(CMD::ApplRply) {
        Some(CMD::ApplRply)
    } else if b.take(8) == cmd_wire(CMD::SetP) {
        Some(CMD::SetP)
    } else if b.take(8) == cmd_wire(CMD::Rply) {
        Some(CMD::Rply)
    } else {
        None
    }
}

impl CMD {
    /// The command's name.
    pub fn as_str(&self) -> (r: &'static str)
        ensures
            r@ == cmd_name(*self),
    {
        match self {
            CMD::ApplGetP => {
                proof { reveal_strlit("ApplGetP"); }
                "ApplGetP"
            },
            CMD::ApplSetP => {
                proof { reveal_strlit("ApplSetP"); }
                "ApplSetP"
            },
            CMD::ApplRply => {
                proof { reveal_strlit("ApplRply"); }
                "ApplRply"
            },
            CMD::SetP => {
                proof { reveal_strlit("SetP"); }
                "SetP"
            },
            CMD::Rply => {
                proof { reveal_strlit("Rply"); }
                "Rply"
            },
        }
    }

    /// The command's 8-byte wire form: its name reversed, zero padded.
    pub fn as_bytes(self) -> (r: [u8; 8])
        ensures
            r@ == cmd_wire(self),
    {
        let mut buf = [0u8; 8];
        let name = self.as_str().as_bytes();
        proof {
            lemma_short_names_ascii(cmd_name(self));
            is_ascii_chars_encode_utf8(cmd_name(self));
            assert(name@ =~= ascii(cmd_name(self)));
        }
        let n = name.len();
        let mut i: usize = 0;
        while i < n
            invariant
                n == name@.len(),
                n <= 8,
                i <= n,
                buf@.len() == 8,
                forall|k: int| 0 <= k < i ==> buf@[k] == name@[n - 1 - k],
                forall|k: int| i <= k < 8 ==> buf@[k] == 0,
            decreases n - i,
        {
            buf[i] = name[n - 1 - i];
            i = i + 1;
        }
        assert(buf@ =~= cmd_wire(self));
        buf
    }

    /// Every command, in declaration order.
    fn all() -> (r: [CMD; 5])
        ensures
            r@ == seq![CMD::ApplGetP, CMD::ApplSetP, CMD::ApplRply, CMD::SetP, CMD::Rply],
    {
        let r = [CMD::ApplGetP, CMD::ApplSetP, CMD::ApplRply, CMD::SetP, CMD::Rply];
        assert(r@ =~= seq![CMD::ApplGetP, CMD::ApplSetP, CMD::ApplRply, CMD::SetP, CMD::Rply]);
        r
    }

    /// The command whose wire form is the first 8 bytes of `bytes`, if any.
    pub fn from_bytes(bytes: &[u8]) -> (r: Option<Self>)
        ensures
            r == cmd_of_wire(bytes@),
    {
        if bytes.len() < 8 {
            return None;
        }
        let all = Self::all();
        let mut i: usize = 0;
        while i < 5
            invariant
                8 <= bytes@.len(),
                all@ == seq![CMD::ApplGetP, CMD::ApplSetP, CMD::ApplRply, CMD::SetP, CMD::Rply],
                i <= 5,
                forall|k: int| 0 <= k < i ==> cmd_wire(#[trigger] all@[k]) != bytes@.take(8),
            decreases 5 - i,
        {
            let cand = all[i];
            let wire = cand.as_bytes();
            if bytes_at_eq(bytes, 0, &wire) {
                assert(bytes@.subrange(0, 8) =~= bytes@.take(8));
                return Some(cand);
            }
            assert(bytes@.subrange(0, 8) =~= bytes@.take(8));
            i = i + 1;
        }
        assert(cmd_wire(all@[0]) != bytes@.take(8));
        assert(cmd_wire(all@[1]) != bytes@.take(8));
        assert(cmd_wire(all@[2]) != bytes@.take(8));
        assert(cmd_wire(all@[3]) != bytes@.take(8));
        assert(cmd_wire(all@[4]) != bytes@.take(8));
        None
    }
}

} // verus!

verus! {

/// The sub-commands a packet can carry; each names the payload format.
#[derive(Clone, Copy, PartialEq, Eq, Structural, Debug)]
pub enum SUBCMD {
    QUSt,
    Pari,
    Mprm,
}

/// The name of a sub-command.
pub open spec fn subcmd_name(c: SUBCMD) -> Seq<char> {
    match c {
        SUBCMD::QUSt => seq!['Q', 'U', 's', 't'],
        SUBCMD::Pari => seq!['P', 'a', 'r', 'i'],
        SUBCMD::Mprm => seq!['m', 'p', 'r', 'm'],
    }
}

/// The 4 bytes that stand for a sub-command on the wire.
pub open spec fn subcmd_wire(c: SUBCMD) -> Seq<u8> {
    name_field(subcmd_name(c), 4)
}

/// The sub-command that the first 4 bytes of `b` stand for, if any.
pub open spec fn subcmd_of_wire(b: Seq<u8>) -> Option<SUBCMD> {
    if b.len() < 4 {
        None
    } else if b.take(4) == subcmd_wire(SUBCMD::QUSt) {
        Some(SUBCMD::QUSt)
    } else if b.take(4) == subcmd_wire(SUBCMD::Pari) {
        Some(SUBCMD::Pari)
    } else if b.take(4) == subcmd_wire(SUBCMD::Mprm) {
        Some(SUBCMD::Mprm)
    } else {
        None
    }
}

impl SUBCMD {
    /// The sub-command's name.
    pub fn as_str(self) -> (r: &'static str)
        ensures
            r@ == subcmd_name(self),
    {
        match self {
            SUBCMD::QUSt => {
                proof { reveal_strlit("QUst"); }
                "QUst"
            },
            SUBCMD::Pari => {
                proof { reveal_strlit("Pari"); }
                "Pari"
            },
            SUBCMD::Mprm => {
                proof { reveal_strlit("mprm"); }
                "mprm"
            },
        }
    }

    /// The sub-command's 4-byte wire form: its name reversed.
    pub fn as_bytes(self) -> (r: [u8; 4])
        ensures
            r@ == subcmd_wire(self),
    {
        let mut buf = [0u8; 4];
        let name = self.as_str().as_bytes();
        proof {
            lemma_short_names_ascii(subcmd_name(self));
            is_ascii_chars_encode_utf8(subcmd_name(self));
            assert(name@ =~= ascii(subcmd_name(self)));
        }
        let n = name.len();
        let mut i: usize = 0;
        while i < n
            invariant
                n == name@.len(),
                n <= 4,
                i <= n,
                buf@.len() == 4,
                forall|k: int| 0 <= k < i ==> buf@[k] == name@[n - 1 - k],
                forall|k: int| i <= k < 4 ==> buf@[k] == 0,
            decreases n - i,
        {
            buf[i] = name[n - 1 - i];
            i = i + 1;
        }
        assert(buf@ =~= subcmd_wire(self));
        buf
    }

    /// Every sub-command, in declaration order.
    fn all() -> (r: [SUBCMD; 3])
        ensures
            r@ == seq![SUBCMD::QUSt, SUBCMD::Pari, SUBCMD::Mprm],
    {
        let r = [SUBCMD::QUSt, SUBCMD::Pari, SUBCMD::Mprm];
        assert(r@ =~= seq![SUBCMD::QUSt, SUBCMD::Pari, SUBCMD::Mprm]);
        r
    }

    /// The sub-command whose wire form is the first 4 bytes of `bytes`, if any.
    pub fn from_bytes(bytes: &[u8]) -> (r: Option<Self>)
        ensures
            r == subcmd_of_wire(bytes@),
    {
        if bytes.len() < 4 {
            return None;
        }
        let all = Self::all();
        let mut i: usize = 0;
        while i < 3
            invariant
                4 <= bytes@.len(),
                all@ == seq![SUBCMD::QUSt, SUBCMD::Pari, SUBCMD::Mprm],
                i <= 3,
                forall|k: int| 0 <= k < i ==> subcmd_wire(#[trigger] all@[k]) != bytes@.take(4),
            decreases 3 - i,
        {
            let cand = all[i];
            let wire = cand.as_bytes();
            if bytes_at_eq(bytes, 0, &wire) {
                assert(bytes@.subrange(0, 4) =~= bytes@.take(4));
                return Some(cand);
            }
            assert(bytes@.subrange(0, 4) =~= bytes@.take(4));
            i = i + 1;
        }
        assert(subcmd_wire(all@[0]) != bytes@.take(4));
        assert(subcmd_wire(all@[1]) != bytes@.take(4));
        assert(subcmd_wire(all@[2]) != bytes@.take(4));
        None
    }
}

/// A name field is exactly as wide as its width when the name fits.
proof fn lemma_name_field_len(name: Seq<char>, width: nat)
    requires
        name.len() <= width,
    ensures
        name_field(name, width).len() == width,
{
}

/// The byte at position `k` of a name field.
proof fn lemma_name_field_index(name: Seq<char>, width: nat, k: int)
    requires
        name.len() <= width,
        0 <= k < width,
    ensures
        name_field(name, width)[k] == if k < name.len() {
            name[name.len() - 1 - k] as u8
        } else {
            0u8
        },
{
}

/// Distinct commands have distinct wire forms.
pub proof fn lemma_cmd_wire_injective(a: CMD, b: CMD)
    requires
        cmd_wire(a) == cmd_wire(b),
    ensures
        a == b,
{
    lemma_name_field_index(cmd_name(a), 8, 3);
    lemma_name_field_index(cmd_name(b), 8, 3);
    lemma_name_field_index(cmd_name(a), 8, 4);
    lemma_name_field_index(cmd_name(b), 8, 4);
    assert(cmd_wire(a)[3] == cmd_wire(b)[3]);
    assert(cmd_wire(a)[4] == cmd_wire(b)[4]);
}

/// Decoding the wire form of a command, whatever follows it, gives the
/// command back; and a decoded command's wire form is what was read.
pub proof fn lemma_cmd_wire_roundtrip(c: CMD, rest: Seq<u8>, b: Seq<u8>)
    ensures
        cmd_of_wire(cmd_wire(c) + rest) == Some(c),
        cmd_of_wire(b) matches Some(d) ==> b.take(8) == cmd_wire(d),
{
    lemma_name_field_len(cmd_name(c), 8);
    assert((cmd_wire(c) + rest).take(8) =~= cmd_wire(c));
    if cmd_wire(CMD::ApplGetP) == cmd_wire(c) {
        lemma_cmd_wire_injective(CMD::ApplGetP, c);
    }
    if cmd_wire(CMD::ApplSetP) == cmd_wire(c) {
        lemma_cmd_wire_injective(CMD::ApplSetP, c);
    }
    if cmd_wire(CMD::ApplRply) == cmd_wire(c) {
        lemma_cmd_wire_injective(CMD::ApplRply, c);
    }
    if cmd_wire(CMD::SetP) == cmd_wire(c) {
        lemma_cmd_wire_injective(CMD::SetP, c);
    }
}

/// Distinct sub-commands have distinct wire forms.
pub proof fn lemma_subcmd_wire_injective(a: SUBCMD, b: SUBCMD)
    requires
        subcmd_wire(a) == subcmd_wire(b),
    ensures
        a == b,
{
    lemma_name_field_index(subcmd_name(a), 4, 0);
    lemma_name_field_index(subcmd_name(b), 4, 0);
    assert(subcmd_wire(a)[0] == subcmd_wire(b)[0]);
}

/// Decoding the wire form of a sub-command, whatever follows it, gives the
/// sub-command back; and a decoded sub-command's wire form is what was read.
pub proof fn lemma_subcmd_wire_roundtrip(c: SUBCMD, rest: Seq<u8>, b: Seq<u8>)
    ensures
        subcmd_of_wire(subcmd_wire(c) + rest) == Some(c),
        subcmd_of_wire(b) matches Some(d) ==> b.take(4) == subcmd_wire(d),
{
    lemma_name_field_len(subcmd_name(c), 4);
    assert((subcmd_wire(c) + rest).take(4) =~= subcmd_wire(c));
    if subcmd_wire(SUBCMD::QUSt) == subcmd_wire(c) {
        lemma_subcmd_wire_injective(SUBCMD::QUSt, c);
    }
    if subcmd_wire(SUBCMD::Pari) == subcmd_wire(c) {
        lemma_subcmd_wire_injective(SUBCMD::Pari, c);
    }
}

} // verus!

verus! {


/// The bytes of the header: body length, id and sequence number.
const HEADER_SIZE: usize = 8;

/// What a `Packet` holds.
pub ghost struct PacketView {
    pub id: u16,
    pub seq: u32,
    pub cmd: Option<CMD>,
    pub bank: Option<u32>,
    pub subcmd: Option<SUBCMD>,
    pub payload: Option<Seq<u8>>,
}

/// A packet: id and sequence number, and optionally a command, a bank, a
/// sub-command and a payload.
pub struct Packet {
    id: u16,
    seq: u32,
    cmd: Option<CMD>,
    bank: Option<u32>,
    subcmd: Option<SUBCMD>,
    payload: Option<Vec<u8>>,
}

/// The view of an optional byte vector.
pub open spec fn opt_bytes(v: Option<Vec<u8>>) -> Option<Seq<u8>> {
    match v {
        Some(b) => Some(b@),
        None => None,
    }
}

impl View for Packet {
    type V = PacketView;

    closed spec fn view(&self) -> PacketView {
        PacketView {
            id: self.id,
            seq: self.seq,
            cmd: self.cmd,
            bank: self.bank,
            subcmd: self.subcmd,
            payload: opt_bytes(self.payload),
        }
    }
}

/// The size announced for a payload of `n` bytes: `4 + n`, kept to 16 bits.
pub open spec fn payload_size(n: nat) -> u16 {
    ((4 + n) % 65536) as u16
}

/// The body length announced in the header: the sizes of the fields present
/// after the header, the payload counted by its announced size.
pub open spec fn body_len(p: PacketView) -> int {
    (if p.cmd is Some { 8int } else { 0int }) + (if p.bank is Some { 4int } else { 0int }) + (
    if p.subcmd is Some { 4int } else { 0int }) + match p.payload {
        Some(pl) => payload_size(pl.len()) as int,
        None => 0int,
    }
}

/// The encoding of the command field, if present.
pub open spec fn cmd_part(c: Option<CMD>) -> Seq<u8> {
    match c {
        Some(c) => cmd_wire(c),
        None => Seq::empty(),
    }
}

/// The encoding of the bank field, if present.
pub open spec fn bank_part(b: Option<u32>) -> Seq<u8> {
    match b {
        Some(b) => u32_le(b),
        None => Seq::empty(),
    }
}

/// The encoding of the sub-command field, if present.
pub open spec fn subcmd_part(c: Option<SUBCMD>) -> Seq<u8> {
    match c {
        Some(c) => subcmd_wire(c),
        None => Seq::empty(),
    }
}

/// The encoding of the payload, if present: its announced size plus 8,
/// then its bytes.
pub open spec fn payload_part(pl: Option<Seq<u8>>) -> Seq<u8> {
    match pl {
        Some(pl) => u32_le((payload_size(pl.len()) + 8) as u32) + pl,
        None => Seq::empty(),
    }
}

/// The encoding of a packet: the header (body length, id, sequence number,
/// little-endian), then each field present: the command, the bank, the
/// sub-command, and the payload preceded by its announced size plus 8.
pub open spec fn packet_wire(p: PacketView) -> Seq<u8> {
    u16_le(body_len(p) as u16) + u16_le(p.id) + u32_le(p.seq) + cmd_part(p.cmd) + bank_part(
        p.bank,
    ) + subcmd_part(p.subcmd) + payload_part(p.payload)
}

/// Whether a payload of sub-command `sub` can be read from `d`, `size`
/// bytes being announced for it.
pub open spec fn payload_readable(sub: SUBCMD, d: Seq<u8>, size: int) -> bool {
    match sub {
        SUBCMD::QUSt => size >= 162 && qust_readable(d),
        SUBCMD::Pari => size >= 12 && d.len() >= 12,
        SUBCMD::Mprm => size >= 488 && d.len() >= 480,
    }
}

/// A payload of sub-command `sub` read from `d` and encoded again.
pub open spec fn payload_reencoded(sub: SUBCMD, d: Seq<u8>) -> Seq<u8> {
    match sub {
        SUBCMD::QUSt => qust_wire(qust_of(d)),
        SUBCMD::Pari => pari_wire(pari_of(d)),
        SUBCMD::Mprm => mprm_wire(mprm_of(d)),
    }
}

/// The body length field of the bytes `d`.
pub open spec fn wire_len_field(d: Seq<u8>) -> u16 {
    u16_of(d.subrange(0, 2))
}

/// The command field of the bytes `d`.
pub open spec fn wire_cmd(d: Seq<u8>) -> Option<CMD> {
    cmd_of_wire(d.subrange(8, 16))
}

/// The sub-command field of the bytes `d`.
pub open spec fn wire_subcmd(d: Seq<u8>) -> Option<SUBCMD> {
    subcmd_of_wire(d.subrange(20, 24))
}

/// The payload size field of the bytes `d`.
pub open spec fn wire_payload_len(d: Seq<u8>) -> u32 {
    u32_of(d.subrange(24, 28))
}

/// Whether `Packet::parse` reads `d` without failing, `size` bytes being
/// announced: fewer than 8 are announced, or the header is there and either
/// announces a bare header or is followed by a known command, a bank, a
/// known sub-command and a payload size of at least 8, with a payload that
/// the sub-command's format can read.
pub open spec fn parse_defined(d: Seq<u8>, size: usize) -> bool {
    size < 8 || (d.len() >= 8 && (wire_len_field(d) == 8 || (d.len() >= 28 && wire_cmd(d) is Some
        && wire_subcmd(d) is Some && wire_payload_len(d) >= 8 && payload_readable(
        wire_subcmd(d).unwrap(),
        d.skip(28),
        wire_payload_len(d) - 8,
    ))))
}

/// The packet that `Packet::parse` reads from `d`: a bare header when the
/// body length field is 8, else a packet with every field, whose payload is
/// the one read by the sub-command's format, encoded again.
pub open spec fn parsed(d: Seq<u8>) -> PacketView {
    if wire_len_field(d) == 8 {
        PacketView {
            id: u16_of(d.subrange(2, 4)),
            seq: u32_of(d.subrange(4, 8)),
            cmd: None,
            bank: None,
            subcmd: None,
            payload: None,
        }
    } else {
        PacketView {
            id: u16_of(d.subrange(2, 4)),
            seq: u32_of(d.subrange(4, 8)),
            cmd: wire_cmd(d),
            bank: Some(u32_of(d.subrange(16, 20))),
            subcmd: wire_subcmd(d),
            payload: Some(payload_reencoded(wire_subcmd(d).unwrap(), d.skip(28))),
        }
    }
}

/// Appends the command field, if present.
fn push_cmd(buf: &mut Vec<u8>, cmd: Option<CMD>)
    ensures
        final(buf)@ == old(buf)@ + cmd_part(cmd),
{
    if let Some(c) = cmd {
        let w = c.as_bytes();
        push_bytes(buf, w.as_slice());
    } else {
        assert(old(buf)@ =~= old(buf)@ + cmd_part(cmd));
    }
}

/// Appends the bank field, if present.
fn push_bank(buf: &mut Vec<u8>, bank: Option<u32>)
    ensures
        final(buf)@ == old(buf)@ + bank_part(bank),
{
    if let Some(b) = bank {
        push_u32_le(buf, b);
    } else {
        assert(old(buf)@ =~= old(buf)@ + bank_part(bank));
    }
}

/// Appends the sub-command field, if present.
fn push_subcmd(buf: &mut Vec<u8>, subcmd: Option<SUBCMD>)
    ensures
        final(buf)@ == old(buf)@ + subcmd_part(subcmd),
{
    if let Some(c) = subcmd {
        let w = c.as_bytes();
        push_bytes(buf, w.as_slice());
    } else {
        assert(old(buf)@ =~= old(buf)@ + subcmd_part(subcmd));
    }
}

/// Appends the payload, if any, and returns its announced size (0 if none).
fn push_payload(buf: &mut Vec<u8>, payload: &Option<Vec<u8>>) -> (size: u16)
    ensures
        final(buf)@ == old(buf)@ + payload_part(opt_bytes(*payload)),
        size == match opt_bytes(*payload) {
            Some(pl) => payload_size(pl.len()),
            None => 0u16,
        },
{
    if let Some(pl) = payload {
        let n16: u32 = (pl.len() % 65536) as u32;
        let size: u16 = ((n16 + 4) % 65536) as u16;
        proof {
            lemma_add_mod_noop(pl@.len() as int, 4, 65536);
            assert(size == payload_size(pl@.len()));
        }
        push_u32_le(buf, size as u32 + 8);
        push_bytes(buf, pl.as_slice());
        assert(buf@ =~= old(buf)@ + payload_part(opt_bytes(*payload)));
        size
    } else {
        assert(old(buf)@ =~= old(buf)@ + payload_part(opt_bytes(*payload)));
        0
    }
}

impl Packet {
    /// A packet with the given fields.
    fn new(
        id: u16,
        seq: u32,
        cmd: Option<CMD>,
        bank: Option<u32>,
        subcmd: Option<SUBCMD>,
        payload: Option<Vec<u8>>,
    ) -> (r: Self)
        ensures
            r@ == (PacketView { id, seq, cmd, bank, subcmd, payload: opt_bytes(payload) }),
    {
        Self { id: id, seq: seq, cmd: cmd, bank: bank, subcmd: subcmd, payload: payload }
    }

    /// The encoding of the packet (see `packet_wire`). The body length must
    /// fit in 16 bits.
    pub fn to_bytes(&self) -> (r: Vec<u8>)
        requires
            body_len(self@) <= u16::MAX,
        ensures
            r@ == packet_wire(self@),
    {
        let ghost p = self@;
        let mut buf: Vec<u8> = Vec::new();
        let mut len: u16 = 0;
        buf.push(0u8);
        buf.push(0u8);
        push_u16_le(&mut buf, self.id);
        push_u32_le(&mut buf, self.seq);
        let ghost head = buf@;
        if self.cmd.is_some() {
            len = len + 8;
        }
        push_cmd(&mut buf, self.cmd);
        if self.bank.is_some() {
            len = len + 4;
        }
        push_bank(&mut buf, self.bank);
        if self.subcmd.is_some() {
            len = len + 4;
        }
        push_subcmd(&mut buf, self.subcmd);
        let size = push_payload(&mut buf, &self.payload);
        len = len + size;
        let ghost body = cmd_part(p.cmd) + bank_part(p.bank) + subcmd_part(p.subcmd)
            + payload_part(p.payload);
        assert(buf@ =~= head + body);
        buf.set(0, (len % 256) as u8);
        buf.set(1, (len / 256) as u8);
        assert(buf@ =~= u16_le(len) + u16_le(p.id) + u32_le(p.seq) + body);
        buf
    }

    /// Whether `parse` reads `data` without failing, `size` bytes being
    /// announced (see `parse_defined`).
    pub fn can_parse(data: &[u8], size: usize) -> (r: bool)
        ensures
            r == parse_defined(data@, size),
    {
        if size < HEADER_SIZE {
            return true;
        }
        if data.len() < 8 {
            return false;
        }
        if read_u16_le(data, 0) as usize == HEADER_SIZE {
            return true;
        }
        if data.len() < 28 {
            return false;
        }
        if CMD::from_bytes(slice_subrange(data, 8, 16)).is_none() {
            return false;
        }
        let plen = read_u32_le(data, 24);
        if plen < 8 {
            return false;
        }
        let size = plen - 8;
        let rest = slice_subrange(data, 28, data.len());
        match SUBCMD::from_bytes(slice_subrange(data, 20, 24)) {
            None => false,
            Some(SUBCMD::QUSt) => size >= 162 && is_readable(rest),
            Some(SUBCMD::Pari) => size >= 12 && rest.len() >= 12,
            Some(SUBCMD::Mprm) => size >= 488 && rest.len() >= 480,
        }
    }

    /// Reads a packet from `data`, `size` bytes being announced (see
    /// `parsed`); fails with "Invalid format." when `size` is below 8.
    pub fn parse(data: &[u8], size: usize) -> (r: Result<Self, String>)
        requires
            parse_defined(data@, size),
        ensures
            r is Err <==> size < 8,
            r matches Err(e) ==> e@ == "Invalid format."@,
            r matches Ok(p) ==> p@ == parsed(data@),
    {
        let mut b = PacketBuilder::new();
        if size < HEADER_SIZE {
            return Err("Invalid format.".to_string());
        }
        let len = read_u16_le(data, 0);
        b = b.id(read_u16_le(data, 2));
        b = b.seq(read_u32_le(data, 4));
        if len as usize == HEADER_SIZE {
            match b.build() {
                Ok(p) => {
                    return Ok(p);
                },
                Err(e) => {
                    return Err(e);
                },
            }
        }
        let cmd = CMD::from_bytes(slice_subrange(data, 8, 16)).unwrap();
        b = b.cmd(cmd);
        b = b.bank(read_u32_le(data, 16));
        let subcmd = SUBCMD::from_bytes(slice_subrange(data, 20, 24)).unwrap();
        b = b.subcmd(subcmd);
        let plen: u32 = read_u32_le(data, 24);
        let rest = slice_subrange(data, 28, data.len());
        let payload: Vec<u8> = match subcmd {
            SUBCMD::QUSt => {
                proof {
                    lemma_qust_reencode(rest@);
                }
                let q = QUSt::parse(rest, plen - 8).unwrap();
                slice_to_vec(q.to_bytes().as_slice())
            },
            SUBCMD::Pari => {
                let q = Pari::parse(rest, plen - 8).unwrap();
                slice_to_vec(q.to_bytes().as_slice())
            },
            SUBCMD::Mprm => {
                let q = Mprm::parse(rest, plen - 8).unwrap();
                slice_to_vec(q.to_bytes().as_slice())
            },
        };
        b = b.payload(payload);
        b.build()
    }
}

/// What a `PacketBuilder` holds.
pub ghost struct BuilderView {
    pub id: Option<u16>,
    pub seq: Option<u32>,
    pub cmd: Option<CMD>,
    pub bank: Option<u32>,
    pub subcmd: Option<SUBCMD>,
    pub payload: Option<Seq<u8>>,
}

/// The id that the preset packets carry.
const ID: u16 = 0x0101;

/// Collects a packet's fields one by one.
pub struct PacketBuilder {
    id: Option<u16>,
    seq: Option<u32>,
    cmd: Option<CMD>,
    bank: Option<u32>,
    subcmd: Option<SUBCMD>,
    payload: Option<Vec<u8>>,
}

impl View for PacketBuilder {
    type V = BuilderView;

    closed spec fn view(&self) -> BuilderView {
        BuilderView {
            id: self.id,
            seq: self.seq,
            cmd: self.cmd,
            bank: self.bank,
            subcmd: self.subcmd,
            payload: opt_bytes(self.payload),
        }
    }
}

/// A builder with every field set, the id being 0x0101.
pub open spec fn preset(seq: u32, cmd: CMD, bank: u32, subcmd: SUBCMD, payload: Seq<u8>) -> BuilderView {
    BuilderView {
        id: Some(0x0101u16),
        seq: Some(seq),
        cmd: Some(cmd),
        bank: Some(bank),
        subcmd: Some(subcmd),
        payload: Some(payload),
    }
}

impl PacketBuilder {
    /// A builder with no field set.
    pub fn new() -> (r: Self)
        ensures
            r@ == (BuilderView {
                id: None,
                seq: None,
                cmd: None,
                bank: None,
                subcmd: None,
                payload: None,
            }),
    {
        Self { id: None, seq: None, cmd: None, bank: None, subcmd: None, payload: None }
    }

    /// The builder for a status request: command `ApplGetP`, bank 0,
    /// sub-command `QUSt` and 162 zero bytes of payload.
    pub fn qust(seq: u32) -> (r: Self)
        ensures
            r@ == preset(seq, CMD::ApplGetP, 0, SUBCMD::QUSt, zeros(162)),
    {
        Self::new().id(ID).seq(seq).cmd(CMD::ApplGetP).bank(0).subcmd(SUBCMD::QUSt).payload(
            QUSt::placeholder(),
        )
    }

    /// The builder for a parameter assignment: command `ApplSetP`,
    /// sub-command `Pari`.
    pub fn pari(seq: u32, bank: u32, payload: Vec<u8>) -> (r: Self)
        ensures
            r@ == preset(seq, CMD::ApplSetP, bank, SUBCMD::Pari, payload@),
    {
        Self::new().id(ID).seq(seq).cmd(CMD::ApplSetP).bank(bank).subcmd(SUBCMD::Pari).payload(
            payload,
        )
    }

    /// The builder for a batch of mixer settings: command `SetP`, bank 0,
    /// sub-command `Mprm`.
    pub fn mprm(seq: u32, payload: Vec<u8>) -> (r: Self)
        ensures
            r@ == preset(seq, CMD::SetP, 0, SUBCMD::Mprm, payload@),
    {
        Self::new().id(ID).seq(seq).cmd(CMD::SetP).bank(0).subcmd(SUBCMD::Mprm).payload(payload)
    }

    /// Sets the id.
    pub fn id(self, value: u16) -> (r: Self)
        ensures
            r@ == (BuilderView { id: Some(value), ..self@ }),
    {
        let mut b = self;
        b.id = Some(value);
        b
    }

    /// Sets the sequence number.
    pub fn seq(self, value: u32) -> (r: Self)
        ensures
            r@ == (BuilderView { seq: Some(value), ..self@ }),
    {
        let mut b = self;
        b.seq = Some(value);
        b
    }

    /// Sets the command.
    pub fn cmd(self, value: CMD) -> (r: Self)
        ensures
            r@ == (BuilderView { cmd: Some(value), ..self@ }),
    {
        let mut b = self;
        b.cmd = Some(value);
        b
    }

    /// Sets the bank.
    pub fn bank(self, value: u32) -> (r: Self)
        ensures
            r@ == (BuilderView { bank: Some(value), ..self@ }),
    {
        let mut b = self;
        b.bank = Some(value);
        b
    }

    /// Sets the sub-command.
    pub fn subcmd(self, value: SUBCMD) -> (r: Self)
        ensures
            r@ == (BuilderView { subcmd: Some(value), ..self@ }),
    {
        let mut b = self;
        b.subcmd = Some(value);
        b
    }

    /// Sets the payload.
    pub fn payload(self, value: Vec<u8>) -> (r: Self)
        ensures
            r@ == (BuilderView { payload: Some(value@), ..self@ }),
    {
        let mut b = self;
        b.payload = Some(value);
        b
    }

    /// The packet with the fields set so far; the id and the sequence number
    /// must be set, else the error names the first of them that is missing.
    pub fn build(self) -> (r: Result<Packet, String>)
        ensures
            r is Ok <==> self@.id is Some && self@.seq is Some,
            r matches Err(e) ==> e@ == (if self@.id is None {
                "id"@
            } else {
                "seq"@
            }),
            r matches Ok(p) ==> p@ == (PacketView {
                id: self@.id.unwrap(),
                seq: self@.seq.unwrap(),
                cmd: self@.cmd,
                bank: self@.bank,
                subcmd: self@.subcmd,
                payload: self@.payload,
            }),
    {
        let id = match self.id {
            Some(v) => v,
            None => {
                return Err("id".to_string());
            },
        };
        let seq = match self.seq {
            Some(v) => v,
            None => {
                return Err("seq".to_string());
            },
        };
        Ok(Packet::new(id, seq, self.cmd, self.bank, self.subcmd, self.payload))
    }
}

} // verus!

verus! {

/// Whether every field of a packet is present.
pub open spec fn is_full(p: PacketView) -> bool {
    p.cmd is Some && p.bank is Some && p.subcmd is Some && p.payload is Some
}

/// Whether a packet can be encoded with its header announcing exactly the
/// bytes that follow it: the body length fits in 16 bits and so does the
/// payload's announced size.
pub open spec fn encodes_exactly(p: PacketView) -> bool {
    &&& body_len(p) <= u16::MAX
    &&& p.payload matches Some(pl) ==> pl.len() + 4 <= u16::MAX
}

/// Whether `pl` is a payload of sub-command `sub` that reads back as
/// itself: 12 bytes for `Pari`; 162 bytes with a UTF-8 version and 4 zero
/// bytes at the end for `QUSt`; for `Mprm`, which is read from offset 0 but
/// written from offset 4, 484 zero bytes and the count 60.
pub open spec fn is_canonical_payload(sub: SUBCMD, pl: Seq<u8>) -> bool {
    match sub {
        SUBCMD::Pari => pl.len() == 12,
        SUBCMD::QUSt => pl.len() == 162 && qust_readable(pl) && pl.skip(158) == zeros(4),
        SUBCMD::Mprm => pl == zeros(484) + u32_le(60),
    }
}

/// The widths of the optional fields.
proof fn lemma_field_lens(p: PacketView)
    ensures
        cmd_part(p.cmd).len() == (if p.cmd is Some { 8int } else { 0int }),
        bank_part(p.bank).len() == (if p.bank is Some { 4int } else { 0int }),
        subcmd_part(p.subcmd).len() == (if p.subcmd is Some { 4int } else { 0int }),
{
    if let Some(c) = p.cmd {
        lemma_name_field_len(cmd_name(c), 8);
    }
    if let Some(c) = p.subcmd {
        lemma_name_field_len(subcmd_name(c), 4);
    }
}

/// The header announces the number of bytes that follow it.
pub proof fn lemma_len_field_counts_body(p: PacketView)
    requires
        encodes_exactly(p),
    ensures
        packet_wire(p).len() == 8 + body_len(p),
        wire_len_field(packet_wire(p)) == body_len(p),
        u16_of(packet_wire(p).subrange(2, 4)) == p.id,
        u32_of(packet_wire(p).subrange(4, 8)) == p.seq,
{
    let w = packet_wire(p);
    lemma_field_lens(p);
    assert(w.subrange(0, 2) =~= u16_le(body_len(p) as u16));
    assert(w.subrange(2, 4) =~= u16_le(p.id));
    assert(w.subrange(4, 8) =~= u32_le(p.seq));
    lemma_u16_roundtrip(body_len(p) as u16);
    lemma_u16_roundtrip(p.id);
    lemma_u32_roundtrip(p.seq);
}

/// Reading back the encoding of a full packet gives the packet, its payload
/// read by the sub-command's format and encoded again.
pub proof fn lemma_parse_to_bytes(p: PacketView, size: usize)
    requires
        is_full(p),
        encodes_exactly(p),
        payload_readable(p.subcmd.unwrap(), p.payload.unwrap(), p.payload.unwrap().len() + 4 as int),
    ensures
        parse_defined(packet_wire(p), size),
        parsed(packet_wire(p)) == (PacketView {
            payload: Some(payload_reencoded(p.subcmd.unwrap(), p.payload.unwrap())),
            ..p
        }),
{
    let w = packet_wire(p);
    let c = p.cmd.unwrap();
    let b = p.bank.unwrap();
    let s = p.subcmd.unwrap();
    let pl = p.payload.unwrap();
    lemma_len_field_counts_body(p);
    lemma_field_lens(p);
    let ps = payload_size(pl.len());
    assert(ps == pl.len() + 4);
    assert(w.subrange(8, 16) =~= cmd_wire(c));
    assert(w.subrange(16, 20) =~= u32_le(b));
    assert(w.subrange(20, 24) =~= subcmd_wire(s));
    assert(w.subrange(24, 28) =~= u32_le((ps + 8) as u32));
    assert(w.skip(28) =~= pl);
    lemma_cmd_wire_roundtrip(c, Seq::empty(), Seq::empty());
    assert(cmd_wire(c) + Seq::<u8>::empty() =~= cmd_wire(c));
    lemma_subcmd_wire_roundtrip(s, Seq::empty(), Seq::empty());
    assert(subcmd_wire(s) + Seq::<u8>::empty() =~= subcmd_wire(s));
    lemma_u32_roundtrip(b);
    lemma_u32_roundtrip((ps + 8) as u32);
    assert(wire_payload_len(w) == pl.len() + 12);
}

/// The central round trip: a full packet whose payload is canonical for its
/// sub-command reads back, from its encoding, as itself.
pub proof fn lemma_packet_roundtrip(p: PacketView, size: usize)
    requires
        is_full(p),
        body_len(p) <= u16::MAX,
        is_canonical_payload(p.subcmd.unwrap(), p.payload.unwrap()),
    ensures
        parse_defined(packet_wire(p), size),
        parsed(packet_wire(p)) == p,
{
    let s = p.subcmd.unwrap();
    let pl = p.payload.unwrap();
    match s {
        SUBCMD::Pari => {
            lemma_pari_reencode(pl);
            assert(pl.take(12) =~= pl);
        },
        SUBCMD::QUSt => {
            lemma_qust_reencode(pl);
            assert(pl.take(158) + zeros(4) =~= pl);
        },
        SUBCMD::Mprm => {
            assert(pl.len() == 488);
            lemma_mprm_reencode(pl);
            assert(zeros(4) + pl.take(480) + u32_le(60) =~= pl);
        },
    }
    lemma_parse_to_bytes(p, size);
    assert((PacketView { payload: Some(payload_reencoded(s, pl)), ..p }) == p);
}

} // verus!

verus! {

/// The wire forms of the commands, byte by byte: the name's ASCII bytes in
/// reverse order, padded with zero bytes to 8.
pub proof fn lemma_cmd_wire_bytes()
    ensures
        cmd_wire(CMD::ApplGetP) == seq![80u8, 116, 101, 71, 108, 112, 112, 65],
        cmd_wire(CMD::ApplSetP) == seq![80u8, 116, 101, 83, 108, 112, 112, 65],
        cmd_wire(CMD::ApplRply) == seq![121u8, 108, 112, 82, 108, 112, 112, 65],
        cmd_wire(CMD::SetP) == seq![80u8, 116, 101, 83, 0, 0, 0, 0],
        cmd_wire(CMD::Rply) == seq![121u8, 108, 112, 82, 0, 0, 0, 0],
{
    assert(cmd_wire(CMD::ApplGetP) =~= seq![80u8, 116, 101, 71, 108, 112, 112, 65]);
    assert(cmd_wire(CMD::ApplSetP) =~= seq![80u8, 116, 101, 83, 108, 112, 112, 65]);
    assert(cmd_wire(CMD::ApplRply) =~= seq![121u8, 108, 112, 82, 108, 112, 112, 65]);
    assert(cmd_wire(CMD::SetP) =~= seq![80u8, 116, 101, 83, 0, 0, 0, 0]);
    assert(cmd_wire(CMD::Rply) =~= seq![121u8, 108, 112, 82, 0, 0, 0, 0]);
}

/// The wire forms of the sub-commands, byte by byte: the name's ASCII bytes
/// in reverse order.
pub proof fn lemma_subcmd_wire_bytes()
    ensures
        subcmd_wire(SUBCMD::QUSt) == seq![116u8, 115, 85, 81],
        subcmd_wire(SUBCMD::Pari) == seq![105u8, 114, 97, 80],
        subcmd_wire(SUBCMD::Mprm) == seq![109u8, 114, 112, 109],
{
    assert(subcmd_wire(SUBCMD::QUSt) =~= seq![116u8, 115, 85, 81]);
    assert(subcmd_wire(SUBCMD::Pari) =~= seq![105u8, 114, 97, 80]);
    assert(subcmd_wire(SUBCMD::Mprm) =~= seq![109u8, 114, 112, 109]);
}

/// The encoding of a full packet, byte by byte: the number of bytes after
/// the header, the id and the sequence number, least significant byte
/// first; the command at 8..16; the bank at 16..20; the sub-command at
/// 20..24; the payload length plus 12 at 24..28; then the payload.
pub proof fn lemma_full_packet_layout(p: PacketView)
    requires
        is_full(p),
        encodes_exactly(p),
    ensures
        packet_wire(p).len() == 28 + p.payload.unwrap().len(),
        packet_wire(p)[0] + packet_wire(p)[1] * 256 == packet_wire(p).len() - 8,
        packet_wire(p)[2] + packet_wire(p)[3] * 256 == p.id,
        packet_wire(p)[4] + packet_wire(p)[5] * 256 + packet_wire(p)[6] * 65536 + packet_wire(p)[7]
            * 16777216 == p.seq,
        packet_wire(p).subrange(8, 16) == cmd_wire(p.cmd.unwrap()),
        packet_wire(p)[16] + packet_wire(p)[17] * 256 + packet_wire(p)[18] * 65536
            + packet_wire(p)[19] * 16777216 == p.bank.unwrap(),
        packet_wire(p).subrange(20, 24) == subcmd_wire(p.subcmd.unwrap()),
        packet_wire(p)[24] + packet_wire(p)[25] * 256 + packet_wire(p)[26] * 65536
            + packet_wire(p)[27] * 16777216 == p.payload.unwrap().len() + 12,
        packet_wire(p).skip(28) == p.payload.unwrap(),
{
    let w = packet_wire(p);
    let pl = p.payload.unwrap();
    lemma_field_lens(p);
    lemma_len_field_counts_body(p);
    assert(payload_size(pl.len()) == pl.len() + 4);
    let h = u16_le(body_len(p) as u16);
    assert(w[0] == h[0] && w[1] == h[1]);
    lemma_u16_roundtrip(body_len(p) as u16);
    let i = u16_le(p.id);
    assert(w[2] == i[0] && w[3] == i[1]);
    lemma_u16_roundtrip(p.id);
    let s = u32_le(p.seq);
    assert(w[4] == s[0] && w[5] == s[1] && w[6] == s[2] && w[7] == s[3]);
    lemma_u32_roundtrip(p.seq);
    assert(w.subrange(8, 16) =~= cmd_wire(p.cmd.unwrap()));
    let b = u32_le(p.bank.unwrap());
    assert(w[16] == b[0] && w[17] == b[1] && w[18] == b[2] && w[19] == b[3]);
    lemma_u32_roundtrip(p.bank.unwrap());
    assert(w.subrange(20, 24) =~= subcmd_wire(p.subcmd.unwrap()));
    let z = u32_le((pl.len() + 12) as u32);
    assert(w[24] == z[0] && w[25] == z[1] && w[26] == z[2] && w[27] == z[3]);
    lemma_u32_roundtrip((pl.len() + 12) as u32);
    assert(w.skip(28) =~= pl);
}

/// Reading a packet takes the id from bytes 2..4 and the sequence number
/// from bytes 4..8, least significant byte first; unless the length field
/// (bytes 0..2) is 8, the bank is read from bytes 16..20 the same way.
pub proof fn lemma_parsed_layout(d: Seq<u8>)
    requires
        d.len() >= 28,
    ensures
        parsed(d).id == d[2] + d[3] * 256,
        parsed(d).seq == d[4] + d[5] * 256 + d[6] * 65536 + d[7] * 16777216,
        d[0] + d[1] * 256 == 8 ==> parsed(d).cmd is None && parsed(d).payload is None,
        d[0] + d[1] * 256 != 8 ==> parsed(d).bank == Some(
            (d[16] + d[17] * 256 + d[18] * 65536 + d[19] * 16777216) as u32,
        ),
{
}

} // verus!

verus! {

/// The presets carry the id 0x0101 and exactly the given fields.
pub proof fn lemma_preset_fields(seq: u32, cmd: CMD, bank: u32, subcmd: SUBCMD, payload: Seq<u8>)
    ensures
        preset(seq, cmd, bank, subcmd, payload).id == Some(257u16),
        preset(seq, cmd, bank, subcmd, payload).seq == Some(seq),
        preset(seq, cmd, bank, subcmd, payload).cmd == Some(cmd),
        preset(seq, cmd, bank, subcmd, payload).bank == Some(bank),
        preset(seq, cmd, bank, subcmd, payload).subcmd == Some(subcmd),
        preset(seq, cmd, bank, subcmd, payload).payload == Some(payload),
{
}

/// A packet with no field after the header encodes as 8 bytes: a length of
/// 0, then the id and the sequence number, least significant byte first.
pub proof fn lemma_bare_header_layout(p: PacketView)
    requires
        p.cmd is None,
        p.bank is None,
        p.subcmd is None,
        p.payload is None,
    ensures
        packet_wire(p).len() == 8,
        packet_wire(p)[0] == 0,
        packet_wire(p)[1] == 0,
        packet_wire(p)[2] + packet_wire(p)[3] * 256 == p.id,
        packet_wire(p)[4] + packet_wire(p)[5] * 256 + packet_wire(p)[6] * 65536 + packet_wire(p)[7]
            * 16777216 == p.seq,
{
    lemma_u16_roundtrip(p.id);
    lemma_u32_roundtrip(p.seq);
}

} // verus!
