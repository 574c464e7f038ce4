//! `QUSt`: the device status report (meters, two option bytes, version).
use vstd::prelude::*;
use vstd::slice::{slice_subrange, slice_to_vec};
use vstd::utf8::{valid_utf8, encode_utf8, decode_utf8};
use vstd::string::*;
use crate::wire::{u32_le, u32_of, zeros, splice, put_u32_le, put_bytes, read_u32_le,
    lemma_u32_roundtrip, lemma_u32_bytes_roundtrip};

verus! {

broadcast use vstd::utf8::group_utf8_lib;

/// A meter reading: a 32-bit float on the wire, held as its bit pattern.
pub type Meter = u32;

/// Decodes `bytes` as UTF-8 with `String::from_utf8`. The standard library
/// documents that it fails exactly when the bytes are not UTF-8 and that the
/// resulting string's bytes are the given bytes; this contract states that
/// over vstd's definition of UTF-8.
#[verifier::external_body]
pub(crate) fn string_from_utf8(bytes: Vec<u8>) -> (r: Option<String>)
    ensures
        r is Some <==> valid_utf8(bytes@),
        r matches Some(s) ==> encode_utf8(s@) == bytes@,
{
    String::from_utf8(bytes).ok()
}

/// The status report.
pub struct QUSt {
    inch: Vec<Meter>,
    auxch: Vec<Meter>,
    outch: Vec<Meter>,
    opt1: u8,
    opt2: u8,
    version: String,
}

/// What a `QUSt` holds.
pub ghost struct QUStView {
    pub inch: Seq<Meter>,
    pub auxch: Seq<Meter>,
    pub outch: Seq<Meter>,
    pub opt1: u8,
    pub opt2: u8,
    pub version: Seq<char>,
}

impl View for QUSt {
    type V = QUStView;

    closed spec fn view(&self) -> QUStView {
        QUStView {
            inch: self.inch@,
            auxch: self.auxch@,
            outch: self.outch@,
            opt1: self.opt1,
            opt2: self.opt2,
            version: self.version@,
        }
    }
}

/// The concatenated little-endian encodings of a sequence of meters.
pub open spec fn meters_wire(ms: Seq<Meter>) -> Seq<u8>
    decreases ms.len(),
{
    if ms.len() == 0 {
        Seq::empty()
    } else {
        meters_wire(ms.drop_last()) + u32_le(ms.last())
    }
}

/// `n` meters read from `d`, starting at offset `at`.
pub open spec fn meters_of(d: Seq<u8>, at: int, n: nat) -> Seq<Meter> {
    Seq::new(n, |i: int| u32_of(d.subrange(at + 4 * i, at + 4 * i + 4)))
}

/// The 162-byte encoding of a status report: the 36 meters, the two option
/// bytes, the UTF-8 bytes of the version, then 4 zero bytes.
pub open spec fn qust_wire(q: QUStView) -> Seq<u8> {
    meters_wire(q.inch + q.auxch + q.outch) + seq![q.opt1, q.opt2] + encode_utf8(q.version)
        + zeros(4)
}

/// The status report read from the first 158 bytes of `d`.
pub open spec fn qust_of(d: Seq<u8>) -> QUStView {
    QUStView {
        inch: meters_of(d, 0, 16),
        auxch: meters_of(d, 64, 10),
        outch: meters_of(d, 104, 10),
        opt1: d[144],
        opt2: d[145],
        version: decode_utf8(d.subrange(146, 158)),
    }
}

/// Whether a status report can be encoded: 16, 10 and 10 meters and a
/// version of 12 UTF-8 bytes.
pub open spec fn qust_encodable(q: QUStView) -> bool {
    &&& q.inch.len() == 16
    &&& q.auxch.len() == 10
    &&& q.outch.len() == 10
    &&& encode_utf8(q.version).len() == 12
}

/// Whether `QUSt::parse` reads `d` without failing: the version bytes are
/// there and are UTF-8.
pub open spec fn qust_readable(d: Seq<u8>) -> bool {
    d.len() >= 158 && valid_utf8(d.subrange(146, 158))
}

/// Whether `QUSt::parse` reads `data` without failing.
pub(crate) fn is_readable(data: &[u8]) -> (r: bool)
    ensures
        r == qust_readable(data@),
{
    if data.len() < 158 {
        return false;
    }
    let bytes = slice_to_vec(slice_subrange(data, 146, 158));
    string_from_utf8(bytes).is_some()
}

/// Writes the encodings of `ms` into `buf` at `at`.
fn put_meters(buf: &mut [u8; 162], at: usize, ms: &Vec<Meter>)
    requires
        at + 4 * ms@.len() <= 162,
    ensures
        final(buf)@ == splice(old(buf)@, at as int, meters_wire(ms@)),
{
    let n = ms.len();
    let mut i: usize = 0;
    let mut offset: usize = at;
    assert(old(buf)@ =~= splice(old(buf)@, at as int, meters_wire(ms@.take(0))));
    while i < n
        invariant
            n == ms@.len(),
            at + 4 * n <= 162,
            i <= n,
            offset == at + 4 * i,
            buf@ == splice(old(buf)@, at as int, meters_wire(ms@.take(i as int))),
        decreases n - i,
    {
        proof {
            lemma_meters_wire_len(ms@.take(i as int));
        }
        put_u32_le(buf, offset, ms[i]);
        proof {
            let next = ms@.take(i + 1);
            assert(next.drop_last() =~= ms@.take(i as int));
            lemma_meters_wire_len(next);
            assert(buf@ =~= splice(old(buf)@, at as int, meters_wire(next)));
        }
        offset = offset + 4;
        i = i + 1;
    }
    assert(ms@.take(n as int) =~= ms@);
}

/// Reads `n` meters from `data` at `at`.
fn read_meters(data: &[u8], at: usize, n: usize) -> (r: Vec<Meter>)
    requires
        at + 4 * n <= data@.len(),
    ensures
        r@ == meters_of(data@, at as int, n as nat),
{
    let mut r: Vec<Meter> = Vec::new();
    let len = data.len();
    let mut i: usize = 0;
    while i < n
        invariant
            len == data@.len(),
            at + 4 * n <= len,
            i <= n,
            r@ == meters_of(data@, at as int, i as nat),
        decreases n - i,
    {
        let offset = at + i * 4;
        r.push(read_u32_le(data, offset));
        i = i + 1;
        assert(r@ =~= meters_of(data@, at as int, i as nat));
    }
    r
}

impl QUSt {
    /// The status report always has 16 input, 10 aux and 10 output meters.
    #[verifier::type_invariant]
    closed spec fn well_formed(&self) -> bool {
        &&& self.inch@.len() == 16
        &&& self.auxch@.len() == 10
        &&& self.outch@.len() == 10
    }

    /// A status report from 16 input, 10 aux and 10 output meters.
    pub fn new(
        inch: Vec<Meter>,
        auxch: Vec<Meter>,
        outch: Vec<Meter>,
        opt1: u8,
        opt2: u8,
        version: String,
    ) -> (r: Self)
        requires
            inch@.len() == 16,
            auxch@.len() == 10,
            outch@.len() == 10,
        ensures
            r@ == (QUStView {
                inch: inch@,
                auxch: auxch@,
                outch: outch@,
                opt1,
                opt2,
                version: version@,
            }),
    {
        Self { inch: inch, auxch: auxch, outch: outch, opt1: opt1, opt2: opt2, version: version }
    }

    /// The payload sent to ask for a status report: 162 zero bytes.
    pub fn placeholder() -> (r: Vec<u8>)
        ensures
            r@ == zeros(162),
    {
        let r = vec![0u8; 162];
        assert(r@ =~= zeros(162));
        r
    }

    /// The 162-byte encoding of the report; the version must take 12 bytes.
    pub fn to_bytes(self) -> (r: [u8; 162])
        requires
            encode_utf8(self@.version).len() == 12,
        ensures
            qust_encodable(self@),
            r@ == qust_wire(self@),
    {
        proof {
            use_type_invariant(&self);
        }
        let mut buf = [0u8; 162];
        put_meters(&mut buf, 0, &self.inch);
        put_meters(&mut buf, 64, &self.auxch);
        put_meters(&mut buf, 104, &self.outch);
        buf[144] = self.opt1;
        buf[145] = self.opt2;
        let version = self.version.as_str().as_bytes();
        put_bytes(&mut buf, 146, version);
        proof {
            let a = self.inch@;
            let b = self.auxch@;
            let c = self.outch@;
            lemma_meters_wire_len(a);
            lemma_meters_wire_len(b);
            lemma_meters_wire_len(c);
            lemma_meters_wire_append(a, b);
            lemma_meters_wire_append(a + b, c);
            assert(buf@ =~= qust_wire(self@));
        }
        buf
    }

    /// Reads a status report from the first 158 bytes of `data`; `None`
    /// when `size`, the number of bytes announced, is below 162.
    pub fn parse(data: &[u8], size: u32) -> (r: Option<Self>)
        requires
            size < 162 || qust_readable(data@),
        ensures
            r is None <==> size < 162,
            r matches Some(q) ==> q@ == qust_of(data@),
    {
        if size < 162 {
            return None;
        }
        let inch = read_meters(data, 0, 16);
        let auxch = read_meters(data, 64, 10);
        let outch = read_meters(data, 104, 10);
        let opt1 = data[144];
        let opt2 = data[145];
        let bytes = slice_to_vec(slice_subrange(data, 146, 158));
        match string_from_utf8(bytes) {
            Some(version) => Some(Self::new(inch, auxch, outch, opt1, opt2, version)),
            None => None,
        }
    }
}

/// The encodings of `n` meters take `4 * n` bytes.
pub proof fn lemma_meters_wire_len(ms: Seq<Meter>)
    ensures
        meters_wire(ms).len() == 4 * ms.len(),
    decreases ms.len(),
{
    if ms.len() > 0 {
        lemma_meters_wire_len(ms.drop_last());
    }
}

/// The encoding of two sequences of meters is the concatenation of theirs.
pub proof fn lemma_meters_wire_append(a: Seq<Meter>, b: Seq<Meter>)
    ensures
        meters_wire(a + b) == meters_wire(a) + meters_wire(b),
    decreases b.len(),
{
    if b.len() == 0 {
        assert(a + b =~= a);
        assert(meters_wire(a) + meters_wire(b) =~= meters_wire(a));
    } else {
        lemma_meters_wire_append(a, b.drop_last());
        assert((a + b).drop_last() =~= a + b.drop_last());
        assert((a + b).last() == b.last());
        assert(meters_wire(a + b) =~= meters_wire(a) + meters_wire(b));
    }
}

/// Reading back encoded meters gives them back.
proof fn lemma_meters_roundtrip(ms: Seq<Meter>, d: Seq<u8>, at: int)
    requires
        0 <= at,
        at + 4 * ms.len() <= d.len(),
        d.subrange(at, at + 4 * ms.len()) == meters_wire(ms),
    ensures
        meters_of(d, at, ms.len()) == ms,
    decreases ms.len(),
{
    if ms.len() > 0 {
        let n = (ms.len() - 1) as nat;
        let init = ms.drop_last();
        let full = d.subrange(at, at + 4 * ms.len());
        assert(meters_wire(init).len() == 4 * n) by {
            lemma_meters_wire_len(init);
        }
        assert(full == meters_wire(init) + u32_le(ms.last()));
        assert(d.subrange(at, at + 4 * n) == meters_wire(init)) by {
            assert(d.subrange(at, at + 4 * n) =~= full.take(4 * n as int));
            assert(full.take(4 * n as int) =~= meters_wire(init));
        }
        lemma_meters_roundtrip(init, d, at);
        assert(u32_of(d.subrange(at + 4 * n, at + 4 * n + 4)) == ms.last()) by {
            assert(d.subrange(at + 4 * n, at + 4 * n + 4) =~= full.skip(4 * n as int));
            assert(full.skip(4 * n as int) =~= u32_le(ms.last()));
            lemma_u32_roundtrip(ms.last());
        }
        assert forall|i: int| 0 <= i < ms.len() implies #[trigger] meters_of(d, at, ms.len())[i]
            == ms[i] by {
            if i < n {
                assert(meters_of(d, at, n)[i] == init[i]);
            }
        }
        assert(meters_of(d, at, ms.len()) =~= ms);
    } else {
        assert(meters_of(d, at, 0) =~= ms);
    }
}

/// Encoding `n` meters read from `d` at `at` gives back those `4 * n` bytes.
proof fn lemma_meters_reencode(d: Seq<u8>, at: int, n: nat)
    requires
        0 <= at,
        at + 4 * n <= d.len(),
    ensures
        meters_wire(meters_of(d, at, n)) == d.subrange(at, at + 4 * n),
    decreases n,
{
    if n > 0 {
        let m = (n - 1) as nat;
        lemma_meters_reencode(d, at, m);
        assert(meters_of(d, at, n).drop_last() =~= meters_of(d, at, m));
        lemma_u32_bytes_roundtrip(d.subrange(at + 4 * m, at + 4 * m + 4));
        assert(d.subrange(at, at + 4 * n) =~= d.subrange(at, at + 4 * m) + d.subrange(
            at + 4 * m,
            at + 4 * m + 4,
        ));
    } else {
        assert(d.subrange(at, at) =~= Seq::<u8>::empty());
    }
}

/// Reading back the encoding of a status report gives it back.
pub proof fn lemma_qust_roundtrip(q: QUStView)
    requires
        qust_encodable(q),
    ensures
        qust_wire(q).len() == 162,
        qust_readable(qust_wire(q)),
        qust_of(qust_wire(q)) == q,
{
    let w = qust_wire(q);
    let all = q.inch + q.auxch + q.outch;
    lemma_meters_wire_len(q.inch);
    lemma_meters_wire_len(q.auxch);
    lemma_meters_wire_len(q.outch);
    lemma_meters_wire_append(q.inch, q.auxch);
    lemma_meters_wire_append(q.inch + q.auxch, q.outch);
    assert(w.subrange(0, 64) =~= meters_wire(q.inch));
    assert(w.subrange(64, 104) =~= meters_wire(q.auxch));
    assert(w.subrange(104, 144) =~= meters_wire(q.outch));
    lemma_meters_roundtrip(q.inch, w, 0);
    lemma_meters_roundtrip(q.auxch, w, 64);
    lemma_meters_roundtrip(q.outch, w, 104);
    assert(w.subrange(146, 158) =~= encode_utf8(q.version));
}

/// Encoding the report read from readable bytes gives back their first 158
/// bytes followed by 4 zero bytes.
pub proof fn lemma_qust_reencode(d: Seq<u8>)
    requires
        qust_readable(d),
    ensures
        qust_encodable(qust_of(d)),
        qust_wire(qust_of(d)) == d.take(158) + zeros(4),
{
    let q = qust_of(d);
    lemma_meters_reencode(d, 0, 16);
    lemma_meters_reencode(d, 64, 10);
    lemma_meters_reencode(d, 104, 10);
    lemma_meters_wire_append(q.inch, q.auxch);
    lemma_meters_wire_append(q.inch + q.auxch, q.outch);
    assert(encode_utf8(q.version) == d.subrange(146, 158));
    assert(qust_wire(q) =~= d.take(158) + zeros(4));
}

} // verus!

verus! {

/// Byte `k` of the `i`-th encoded meter stands at `4 * i + k`; the meter is
/// written least significant byte first.
proof fn lemma_meters_wire_index(ms: Seq<Meter>, i: int)
    requires
        0 <= i < ms.len(),
    ensures
        meters_wire(ms).len() == 4 * ms.len(),
        meters_wire(ms)[4 * i] == ms[i] % 256,
        meters_wire(ms)[4 * i + 1] == (ms[i] / 256) % 256,
        meters_wire(ms)[4 * i + 2] == (ms[i] / 65536) % 256,
        meters_wire(ms)[4 * i + 3] == ms[i] / 16777216,
    decreases ms.len(),
{
    lemma_meters_wire_len(ms);
    lemma_meters_wire_len(ms.drop_last());
    if i < ms.len() - 1 {
        lemma_meters_wire_index(ms.drop_last(), i);
    }
}

/// The encoding of a status report: input meter `i` at `4 * i`, aux meter
/// `i` at `64 + 4 * i`, output meter `i` at `104 + 4 * i`, each least
/// significant byte first; the option bytes at 144 and 145; the version's
/// UTF-8 bytes at 146..158; zero bytes at 158..162.
pub proof fn lemma_qust_layout(q: QUStView)
    requires
        qust_encodable(q),
    ensures
        qust_wire(q).len() == 162,
        forall|i: int|
            0 <= i < 16 ==> {
                &&& qust_wire(q)[4 * i] == (#[trigger] q.inch[i]) % 256
                &&& qust_wire(q)[4 * i + 1] == (q.inch[i] / 256) % 256
                &&& qust_wire(q)[4 * i + 2] == (q.inch[i] / 65536) % 256
                &&& qust_wire(q)[4 * i + 3] == q.inch[i] / 16777216
            },
        forall|i: int|
            0 <= i < 10 ==> {
                &&& qust_wire(q)[64 + 4 * i] == (#[trigger] q.auxch[i]) % 256
                &&& qust_wire(q)[64 + 4 * i + 1] == (q.auxch[i] / 256) % 256
                &&& qust_wire(q)[64 + 4 * i + 2] == (q.auxch[i] / 65536) % 256
                &&& qust_wire(q)[64 + 4 * i + 3] == q.auxch[i] / 16777216
            },
        forall|i: int|
            0 <= i < 10 ==> {
                &&& qust_wire(q)[104 + 4 * i] == (#[trigger] q.outch[i]) % 256
                &&& qust_wire(q)[104 + 4 * i + 1] == (q.outch[i] / 256) % 256
                &&& qust_wire(q)[104 + 4 * i + 2] == (q.outch[i] / 65536) % 256
                &&& qust_wire(q)[104 + 4 * i + 3] == q.outch[i] / 16777216
            },
        qust_wire(q)[144] == q.opt1,
        qust_wire(q)[145] == q.opt2,
        qust_wire(q).subrange(146, 158) == encode_utf8(q.version),
        forall|j: int| 158 <= j < 162 ==> qust_wire(q)[j] == 0,
{
    let all = q.inch + q.auxch + q.outch;
    lemma_meters_wire_len(all);
    assert forall|i: int| 0 <= i < 16 implies {
        &&& qust_wire(q)[4 * i] == (#[trigger] q.inch[i]) % 256
        &&& qust_wire(q)[4 * i + 1] == (q.inch[i] / 256) % 256
        &&& qust_wire(q)[4 * i + 2] == (q.inch[i] / 65536) % 256
        &&& qust_wire(q)[4 * i + 3] == q.inch[i] / 16777216
    } by {
        lemma_meters_wire_index(all, i);
        assert(all[i] == q.inch[i]);
    }
    assert forall|i: int| 0 <= i < 10 implies {
        &&& qust_wire(q)[64 + 4 * i] == (#[trigger] q.auxch[i]) % 256
        &&& qust_wire(q)[64 + 4 * i + 1] == (q.auxch[i] / 256) % 256
        &&& qust_wire(q)[64 + 4 * i + 2] == (q.auxch[i] / 65536) % 256
        &&& qust_wire(q)[64 + 4 * i + 3] == q.auxch[i] / 16777216
    } by {
        lemma_meters_wire_index(all, 16 + i);
        assert(all[16 + i] == q.auxch[i]);
    }
    assert forall|i: int| 0 <= i < 10 implies {
        &&& qust_wire(q)[104 + 4 * i] == (#[trigger] q.outch[i]) % 256
        &&& qust_wire(q)[104 + 4 * i + 1] == (q.outch[i] / 256) % 256
        &&& qust_wire(q)[104 + 4 * i + 2] == (q.outch[i] / 65536) % 256
        &&& qust_wire(q)[104 + 4 * i + 3] == q.outch[i] / 16777216
    } by {
        lemma_meters_wire_index(all, 26 + i);
        assert(all[26 + i] == q.outch[i]);
    }
    assert(qust_wire(q).subrange(146, 158) =~= encode_utf8(q.version));
}

/// Reading a status report takes input meter `i` from bytes `4 * i ..
/// 4 * i + 4`, aux meter `i` from `64 + 4 * i ..`, output meter `i` from
/// `104 + 4 * i ..`, each least significant byte first; the option bytes
/// from 144 and 145; the version by decoding bytes 146..158 as UTF-8.
pub proof fn lemma_qust_of_layout(d: Seq<u8>)
    requires
        d.len() >= 158,
    ensures
        qust_of(d).inch.len() == 16,
        qust_of(d).auxch.len() == 10,
        qust_of(d).outch.len() == 10,
        forall|i: int|
            0 <= i < 16 ==> #[trigger] qust_of(d).inch[i] == d[4 * i] + d[4 * i + 1] * 256 + d[4
                * i + 2] * 65536 + d[4 * i + 3] * 16777216,
        forall|i: int|
            0 <= i < 10 ==> #[trigger] qust_of(d).auxch[i] == d[64 + 4 * i] + d[64 + 4 * i + 1]
                * 256 + d[64 + 4 * i + 2] * 65536 + d[64 + 4 * i + 3] * 16777216,
        forall|i: int|
            0 <= i < 10 ==> #[trigger] qust_of(d).outch[i] == d[104 + 4 * i] + d[104 + 4 * i + 1]
                * 256 + d[104 + 4 * i + 2] * 65536 + d[104 + 4 * i + 3] * 16777216,
        qust_of(d).opt1 == d[144],
        qust_of(d).opt2 == d[145],
        encode_utf8(qust_of(d).version) == d.subrange(146, 158) <== valid_utf8(d.subrange(146, 158)),
{
}

} // verus!
