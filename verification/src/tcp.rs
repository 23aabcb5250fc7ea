use vstd::prelude::*;

use crate::encoding::{
    be16_at, be16_bytes, be32_at, be32_bytes, get_be16, get_be32, put_be16, put_be32, sub_bytes,
};

verus! {

pub const TCP_FIN: u16 = 1;

pub const TCP_SYN: u16 = 2;

pub const TCP_RST: u16 = 4;

pub const TCP_PSH: u16 = 8;

pub const TCP_ACK: u16 = 16;

/// A TCP header, all fields in host order; on the wire every field is
/// big-endian.  The high nibble of `flags` carries the header length in
/// 32-bit words.
#[derive(Copy, Clone, PartialEq, Eq, Structural, Debug)]
pub struct TCPHeader {
    pub src: u16,
    pub dst: u16,
    pub sequence: u32,
    pub ack_num: u32,
    pub flags: u16,
    pub window_size: u16,
    pub checksum: u16,
    pub urgent_pointer: u16,
}

/// A parsed segment: the header, the option bytes between the fixed header
/// and the payload, and the payload.
pub struct TCP {
    pub header: TCPHeader,
    pub options: Vec<u8>,
    pub data: Vec<u8>,
}

/// A segment as the specifications see it.
pub struct TCPView {
    pub header: TCPHeader,
    pub options: Seq<u8>,
    pub data: Seq<u8>,
}

impl View for TCP {
    type V = TCPView;

    open spec fn view(&self) -> TCPView {
        TCPView { header: self.header, options: self.options@, data: self.data@ }
    }
}

/// The 20 wire bytes of a header.
pub open spec fn header_bytes(h: TCPHeader) -> Seq<u8> {
    be16_bytes(h.src as int) + be16_bytes(h.dst as int) + be32_bytes(h.sequence as int)
        + be32_bytes(h.ack_num as int) + be16_bytes(h.flags as int) + be16_bytes(
        h.window_size as int,
    ) + be16_bytes(h.checksum as int) + be16_bytes(h.urgent_pointer as int)
}

/// The wire bytes of a whole segment.
pub open spec fn tcp_bytes(t: TCPView) -> Seq<u8> {
    header_bytes(t.header) + t.options + t.data
}

/// The header encoded at the front of `s`.
pub open spec fn header_at(s: Seq<u8>) -> TCPHeader {
    TCPHeader {
        src: be16_at(s, 0) as u16,
        dst: be16_at(s, 2) as u16,
        sequence: be32_at(s, 4) as u32,
        ack_num: be32_at(s, 8) as u32,
        flags: be16_at(s, 12) as u16,
        window_size: be16_at(s, 14) as u16,
        checksum: be16_at(s, 16) as u16,
        urgent_pointer: be16_at(s, 18) as u16,
    }
}

/// The header length in bytes that a flags word encodes: the high nibble,
/// times four.
pub open spec fn header_len_of(flags: int) -> int {
    (flags / 0x1000) * 4
}

/// Bytes that parse as a segment: room for the fixed header, and an encoded
/// header length between the fixed header and the end.
pub open spec fn parse_ok(s: Seq<u8>) -> bool {
    &&& s.len() >= 20
    &&& 20 <= header_len_of(be16_at(s, 12))
    &&& header_len_of(be16_at(s, 12)) <= s.len()
}

/// What the bytes parse to.
pub open spec fn parse_tcp(s: Seq<u8>) -> TCPView {
    let hlen = header_len_of(be16_at(s, 12));
    TCPView {
        header: header_at(s),
        options: s.subrange(20, hlen),
        data: s.subrange(hlen, s.len() as int),
    }
}

impl TCP {
    /// Parse a datagram.  The header length is taken from the flags word's
    /// high nibble; one below 20 bytes or beyond the datagram is malformed.
    pub fn from_bytes(bytes: &Vec<u8>) -> (r: Option<TCP>)
        ensures
            r is Some <==> parse_ok(bytes@),
            r matches Some(t) ==> t@ == parse_tcp(bytes@),
    {
        if bytes.len() < 20 {
            return None;
        }
        let flags = get_be16(bytes, 12);
        let hlen: usize = ((flags as usize) >> 10) & 0x3C;
        proof {
            assert((((flags as usize) >> 10) & 0x3C) == ((flags as usize) / 0x1000) * 4
                && (((flags as usize) >> 10) & 0x3C) <= 60) by (bit_vector);
            assert((flags as usize) / 0x1000 == (flags as int) / 0x1000);
        }
        if hlen < 20 || hlen > bytes.len() {
            return None;
        }
        let header = TCPHeader {
            src: get_be16(bytes, 0),
            dst: get_be16(bytes, 2),
            sequence: get_be32(bytes, 4),
            ack_num: get_be32(bytes, 8),
            flags,
            window_size: get_be16(bytes, 14),
            checksum: get_be16(bytes, 16),
            urgent_pointer: get_be16(bytes, 18),
        };
        let options = sub_bytes(bytes, 20, hlen - 20);
        let data = sub_bytes(bytes, hlen, bytes.len() - hlen);
        proof {
            assert(options@ =~= bytes@.subrange(20, header_len_of(be16_at(bytes@, 12))));
            assert(data@ =~= bytes@.subrange(
                header_len_of(be16_at(bytes@, 12)),
                bytes@.len() as int,
            ));
        }
        Some(TCP { header, options, data })
    }

    /// Serialize: the packed header, then options, then payload.
    pub fn to_bytes(&self) -> (r: Vec<u8>)
        ensures
            r@ == tcp_bytes(self@),
    {
        let mut out: Vec<u8> = Vec::new();
        put_be16(&mut out, self.header.src);
        put_be16(&mut out, self.header.dst);
        put_be32(&mut out, self.header.sequence);
        put_be32(&mut out, self.header.ack_num);
        put_be16(&mut out, self.header.flags);
        put_be16(&mut out, self.header.window_size);
        put_be16(&mut out, self.header.checksum);
        put_be16(&mut out, self.header.urgent_pointer);
        proof {
            assert(out@ =~= header_bytes(self.header));
        }
        let ghost hdr = out@;
        let mut opts = sub_bytes(&self.options, 0, self.options.len());
        out.append(&mut opts);
        let mut payload = sub_bytes(&self.data, 0, self.data.len());
        out.append(&mut payload);
        proof {
            assert(self.options@.subrange(0, self.options@.len() as int) =~= self.options@);
            assert(self.data@.subrange(0, self.data@.len() as int) =~= self.data@);
            assert(out@ =~= tcp_bytes(self@));
        }
        out
    }
}

/// Parsing the serialization of a segment without options gives the
/// segment back, provided its flags encode the bare 20-byte header, as
/// every segment this endpoint builds does.
pub proof fn lemma_tcp_round_trip(t: TCPView)
    requires
        t.options.len() == 0,
        header_len_of(t.header.flags as int) == 20,
    ensures
        parse_ok(tcp_bytes(t)),
        parse_tcp(tcp_bytes(t)) == t,
{
    let s = tcp_bytes(t);
    assert(s =~= header_bytes(t.header) + t.data);
    lemma_be16_split(t.header.src);
    lemma_be16_split(t.header.dst);
    lemma_be32_split(t.header.sequence);
    lemma_be32_split(t.header.ack_num);
    lemma_be16_split(t.header.flags);
    lemma_be16_split(t.header.window_size);
    lemma_be16_split(t.header.checksum);
    lemma_be16_split(t.header.urgent_pointer);
    assert(be16_at(s, 0) == t.header.src);
    assert(be16_at(s, 2) == t.header.dst);
    assert(be32_at(s, 4) == t.header.sequence);
    assert(be32_at(s, 8) == t.header.ack_num);
    assert(be16_at(s, 12) == t.header.flags);
    assert(be16_at(s, 14) == t.header.window_size);
    assert(be16_at(s, 16) == t.header.checksum);
    assert(be16_at(s, 18) == t.header.urgent_pointer);
    assert(header_at(s) == t.header);
    assert(parse_tcp(s).options =~= t.options);
    assert(parse_tcp(s).data =~= t.data);
}

/// A 16-bit value equals its two big-endian bytes reassembled.
proof fn lemma_be16_split(x: u16)
    by (bit_vector)
    ensures
        0x100 * ((x / 0x100) % 0x100) + (x % 0x100) == x,
        (x / 0x100) % 0x100 < 0x100,
        x % 0x100 < 0x100,
{
}

/// A 32-bit value equals its four big-endian bytes reassembled.
proof fn lemma_be32_split(x: u32)
    by (bit_vector)
    ensures
        0x100_0000 * ((x / 0x100_0000) % 0x100) + 0x1_0000 * ((x / 0x1_0000) % 0x100) + 0x100 * ((
        x / 0x100) % 0x100) + (x % 0x100) == x,
{
}

/// A host IPv4 address, one octet per field in dotted-quad order.
#[derive(Copy, Clone, PartialEq, Eq, Structural, Debug)]
pub struct Ipv4Addr {
    pub o0: u8,
    pub o1: u8,
    pub o2: u8,
    pub o3: u8,
}

/// The four wire bytes of an address.
pub open spec fn addr_bytes(a: Ipv4Addr) -> Seq<u8> {
    seq![a.o0, a.o1, a.o2, a.o3]
}

/// The sum of the big-endian 16-bit words of `s`, an odd trailing byte
/// padded with a zero low byte.
pub open spec fn words_sum(s: Seq<u8>) -> int
    decreases s.len(),
{
    if s.len() == 0 {
        0
    } else if s.len() == 1 {
        s[0] * 0x100
    } else {
        s[0] * 0x100 + s[1] + words_sum(s.skip(2))
    }
}

/// One end-around-carry step: fold the high bits onto the low 16.
pub open spec fn fold16(x: int) -> int {
    x % 0x1_0000 + x / 0x1_0000
}

/// The internet checksum of `s`: the one's-complement 16-bit sum, carries
/// folded back in, negated.  Two folds settle every sum below `2^32`.
pub open spec fn checksum_of(s: Seq<u8>) -> int {
    0xFFFF - fold16(fold16(words_sum(s)))
}

/// The IPv4 pseudo-header for a TCP segment of `seg_len` bytes: source,
/// destination, the protocol number six, and the length.
pub open spec fn pseudo_bytes(src: Ipv4Addr, dst: Ipv4Addr, seg_len: int) -> Seq<u8> {
    addr_bytes(src) + addr_bytes(dst) + seq![0u8, 6u8] + be16_bytes(seg_len)
}

/// The checksum a segment carries: computed over the pseudo-header and the
/// segment with its checksum field zeroed.
pub open spec fn segment_checksum(src: Ipv4Addr, dst: Ipv4Addr, t: TCPView) -> int {
    checksum_of(
        pseudo_bytes(src, dst, 20 + t.options.len() + t.data.len() as int) + tcp_bytes(
            TCPView {
                header: TCPHeader { checksum: 0, ..t.header },
                options: t.options,
                data: t.data,
            },
        ),
    )
}

/// Compute the internet checksum of a byte buffer.
pub fn compute_checksum(b: &Vec<u8>) -> (r: u16)
    requires
        b.len() <= 0x2_0000,
    ensures
        r == checksum_of(b@),
{
    let mut sum: u64 = 0;
    let mut i: usize = 0;
    proof {
        assert(b@.skip(0) =~= b@);
    }
    while i + 1 < b.len()
        invariant
            i % 2 == 0,
            i <= b.len(),
            b.len() <= 0x2_0000,
            2 * sum <= i * 0xFFFF,
            words_sum(b@) == sum + words_sum(b@.skip(i as int)),
        decreases b.len() - i,
    {
        let w: u64 = (b[i] as u64) * 0x100 + (b[i + 1] as u64);
        proof {
            assert(b@.skip(i as int).skip(2) =~= b@.skip(i + 2));
            assert(b@.skip(i as int)[0] == b@[i as int]);
            assert(b@.skip(i as int)[1] == b@[i + 1]);
        }
        sum = sum + w;
        i = i + 2;
    }
    if i < b.len() {
        proof {
            assert(b@.skip(i as int).len() == 1);
            assert(b@.skip(i as int)[0] == b@[i as int]);
        }
        sum = sum + (b[i] as u64) * 0x100;
    } else {
        proof {
            assert(b@.skip(i as int).len() == 0);
        }
    }
    proof {
        assert(sum == words_sum(b@));
        assert(sum <= 0xFFFF_FFFFu64);
    }
    let s1: u64 = sum % 0x1_0000 + sum / 0x1_0000;
    proof {
        assert(sum <= 0xFFFF_FFFFu64 ==> sum % 0x1_0000 + sum / 0x1_0000 <= 0x1_FFFEu64)
            by (bit_vector);
    }
    let s2: u64 = s1 % 0x1_0000 + s1 / 0x1_0000;
    proof {
        assert(s1 <= 0x1_FFFEu64 ==> s1 % 0x1_0000 + s1 / 0x1_0000 <= 0xFFFFu64) by (bit_vector);
    }
    (0xFFFF - s2) as u16
}

/// Fill in the checksum of a segment whose checksum field is still zero.
pub fn compute_segment_checksum(src: Ipv4Addr, dst: Ipv4Addr, t: &TCP) -> (r: u16)
    requires
        t.header.checksum == 0,
        t.options.len() + t.data.len() <= 0xFFDF,
    ensures
        r == segment_checksum(src, dst, t@),
{
    let mut buf: Vec<u8> = Vec::new();
    buf.push(src.o0);
    buf.push(src.o1);
    buf.push(src.o2);
    buf.push(src.o3);
    buf.push(dst.o0);
    buf.push(dst.o1);
    buf.push(dst.o2);
    buf.push(dst.o3);
    buf.push(0);
    buf.push(6);
    let seg_len: u16 = (20 + t.options.len() + t.data.len()) as u16;
    put_be16(&mut buf, seg_len);
    proof {
        assert(buf@ =~= pseudo_bytes(src, dst, 20 + t.options@.len() + t.data@.len() as int));
    }
    let mut seg = t.to_bytes();
    buf.append(&mut seg);
    proof {
        assert(TCPHeader { checksum: 0, ..t.header } == t.header);
        assert(buf@ =~= pseudo_bytes(src, dst, 20 + t.options@.len() + t.data@.len() as int) + tcp_bytes(
            TCPView {
                header: TCPHeader { checksum: 0, ..t.header },
                options: t.options@,
                data: t.data@,
            },
        ));
    }
    compute_checksum(&buf)
}

/// Word sums split at any even boundary.
proof fn lemma_words_sum_append(s1: Seq<u8>, s2: Seq<u8>)
    requires
        s1.len() % 2 == 0,
    ensures
        words_sum(s1 + s2) == words_sum(s1) + words_sum(s2),
    decreases s1.len(),
{
    if s1.len() == 0 {
        assert(s1 + s2 =~= s2);
    } else {
        assert((s1 + s2).skip(2) =~= s1.skip(2) + s2);
        lemma_words_sum_append(s1.skip(2), s2);
        if s2.len() == 0 {
            assert(s1 + s2 =~= s1);
        } else {
            assert((s1 + s2)[0] == s1[0]);
            assert((s1 + s2)[1] == s1[1]);
        }
    }
}

/// A word sum is non-negative and bounded by one maximal word per pair of
/// bytes.
proof fn lemma_words_sum_bounds(s: Seq<u8>)
    ensures
        0 <= words_sum(s),
        2 * words_sum(s) <= s.len() * 0xFFFF + 0xFFFF,
    decreases s.len(),
{
    if s.len() >= 2 {
        lemma_words_sum_bounds(s.skip(2));
    }
}

/// Folding the carry keeps the value's residue modulo `0xFFFF`.
proof fn lemma_fold16_congruent(x: int)
    requires
        x >= 0,
    ensures
        fold16(x) % 0xFFFF == x % 0xFFFF,
        fold16(x) >= 0,
        x > 0 ==> fold16(x) > 0,
{
    let q = x / 0x1_0000;
    let r = x % 0x1_0000;
    vstd::arithmetic::div_mod::lemma_fundamental_div_mod(x, 0x1_0000);
    assert(x == 0x1_0000 * q + r);
    assert(q >= 0) by (nonlinear_arith)
        requires
            x >= 0,
            x == 0x1_0000 * q + r,
            0 <= r < 0x1_0000,
    ;
    assert(x == 0xFFFF * q + (q + r));
    vstd::arithmetic::div_mod::lemma_mod_multiples_vanish(q, q + r, 0xFFFF);
}

/// Two folds land any sum below `2^32` in a single word.
proof fn lemma_fold16_bounds(x: int)
    requires
        0 <= x < 0x1_0000_0000,
    ensures
        0 <= fold16(x) <= 0x1_FFFE,
        0 <= fold16(fold16(x)) <= 0xFFFF,
{
    assert(x / 0x1_0000 <= 0xFFFF) by (nonlinear_arith)
        requires
            0 <= x < 0x1_0000_0000,
    ;
    let f1 = fold16(x);
    assert(f1 % 0x1_0000 + f1 / 0x1_0000 <= 0xFFFF) by (nonlinear_arith)
        requires
            0 <= f1 <= 0x1_FFFE,
    ;
}

/// The verification property of the internet checksum: fill the zeroed
/// 16-bit checksum slot of a message with the message's checksum, and the
/// checksum of the result is zero.  `a` is everything before the slot (an
/// even number of bytes), `b` everything after it.
pub proof fn lemma_checksum_verifies(a: Seq<u8>, b: Seq<u8>)
    requires
        a.len() % 2 == 0,
        a.len() + b.len() + 2 <= 0x1_0080,
    ensures
        checksum_of(a + be16_bytes(checksum_of(a + be16_bytes(0) + b)) + b) == 0,
{
    let zeroed = a + be16_bytes(0) + b;
    let s0 = words_sum(zeroed);
    lemma_words_sum_bounds(zeroed);
    assert(s0 < 0x1_0000_0000);
    let f = fold16(fold16(s0));
    lemma_fold16_bounds(s0);
    lemma_fold16_congruent(s0);
    lemma_fold16_congruent(fold16(s0));
    let c = 0xFFFF - f;
    assert(checksum_of(zeroed) == c);
    let filled = a + be16_bytes(c) + b;
    // The filled message's word sum is the zeroed one's, plus the checksum.
    lemma_words_sum_append(a, be16_bytes(0) + b);
    lemma_words_sum_append(a, be16_bytes(c) + b);
    assert(be16_bytes(0) + b =~= seq![0u8, 0u8] + b);
    assert(c / 0x100 < 0x100 && c == 0x100 * (c / 0x100) + c % 0x100);
    assert(words_sum(seq![((c / 0x100) % 0x100) as u8, (c % 0x100) as u8] + b) == c + words_sum(b))
        by {
        assert((seq![((c / 0x100) % 0x100) as u8, (c % 0x100) as u8] + b).skip(2) =~= b);
        assert((c / 0x100) % 0x100 == c / 0x100);
    }
    assert(words_sum(seq![0u8, 0u8] + b) == words_sum(b)) by {
        assert((seq![0u8, 0u8] + b).skip(2) =~= b);
    }
    assert(zeroed =~= a + (be16_bytes(0) + b));
    assert(filled =~= a + (be16_bytes(c) + b));
    let s1 = words_sum(filled);
    assert(s1 == s0 + c);
    // The total is a positive multiple of 0xFFFF, so both folds land it on
    // exactly 0xFFFF, whose complement is zero.
    assert(s1 % 0xFFFF == 0) by {
        assert(s1 == 0xFFFF + (s0 - f));
        assert(s0 % 0xFFFF == f % 0xFFFF);
        vstd::arithmetic::div_mod::lemma_fundamental_div_mod(s0, 0xFFFF);
        vstd::arithmetic::div_mod::lemma_fundamental_div_mod(f, 0xFFFF);
        let qs = s0 / 0xFFFF;
        let qf = f / 0xFFFF;
        assert(s1 == 0xFFFF * (1 + qs - qf));
        vstd::arithmetic::div_mod::lemma_mod_multiples_vanish(1 + qs - qf, 0, 0xFFFF);
    }
    assert(s1 > 0);
    assert(s1 < 0x1_0000_0000);
    lemma_fold16_bounds(s1);
    lemma_fold16_congruent(s1);
    lemma_fold16_congruent(fold16(s1));
    let g = fold16(fold16(s1));
    assert(g % 0xFFFF == 0);
    assert(g > 0) by {
        if fold16(s1) > 0 {
        }
    }
    assert(g == 0xFFFF) by {
        if g < 0xFFFF {
            vstd::arithmetic::div_mod::lemma_small_mod(g as nat, 0xFFFF);
        }
    }
}

/// Every segment this endpoint sends verifies: the checksum recomputed
/// over the pseudo-header and the serialized segment, checksum field
/// included, is zero.
pub proof fn lemma_built_segment_verifies(
    src: Ipv4Addr,
    dst: Ipv4Addr,
    hp: u16,
    pp: u16,
    seq: u32,
    ack: u32,
    flags: u16,
    data: Seq<u8>,
)
    requires
        data.len() <= 0xFFDF,
    ensures
        checksum_of(
            pseudo_bytes(src, dst, 20 + data.len() as int) + built_segment(
                src,
                dst,
                hp,
                pp,
                seq,
                ack,
                flags,
                data,
            ),
        ) == 0,
{
    let h0 = built_header(hp, pp, seq, ack, flags);
    let t0 = TCPView { header: h0, options: Seq::empty(), data };
    let c = segment_checksum(src, dst, t0);
    let front = pseudo_bytes(src, dst, 20 + data.len() as int) + be16_bytes(h0.src as int)
        + be16_bytes(h0.dst as int) + be32_bytes(h0.sequence as int) + be32_bytes(
        h0.ack_num as int,
    ) + be16_bytes(h0.flags as int) + be16_bytes(h0.window_size as int);
    let back = be16_bytes(h0.urgent_pointer as int) + data;
    assert(pseudo_bytes(src, dst, 20 + data.len() as int) + tcp_bytes(t0) =~= front + be16_bytes(0)
        + back);
    lemma_checksum_verifies(front, back);
    let cv = checksum_of(front + be16_bytes(0) + back);
    assert(c == cv);
    assert(0 <= cv <= 0xFFFF) by {
        let zeroed = front + be16_bytes(0) + back;
        lemma_words_sum_bounds(zeroed);
        lemma_fold16_bounds(words_sum(zeroed));
    }
    assert(pseudo_bytes(src, dst, 20 + data.len() as int) + built_segment(
        src,
        dst,
        hp,
        pp,
        seq,
        ack,
        flags,
        data,
    ) =~= front + be16_bytes(c) + back);
}

/// The header this endpoint builds: the bare 20-byte length in the high
/// nibble beside the given flag bits, the fixed window, no urgent data,
/// and the checksum still zero.
pub open spec fn built_header(hp: u16, pp: u16, seq: u32, ack: u32, flags: u16) -> TCPHeader {
    TCPHeader {
        src: hp,
        dst: pp,
        sequence: seq,
        ack_num: ack,
        flags: (0x5000u16 | flags),
        window_size: 65535u16,
        checksum: 0u16,
        urgent_pointer: 0u16,
    }
}

/// The wire bytes of a segment this endpoint sends: its header with the
/// checksum filled in, no options, then the payload.
pub open spec fn built_segment(
    src: Ipv4Addr,
    dst: Ipv4Addr,
    hp: u16,
    pp: u16,
    seq: u32,
    ack: u32,
    flags: u16,
    data: Seq<u8>,
) -> Seq<u8> {
    let h0 = built_header(hp, pp, seq, ack, flags);
    let c = segment_checksum(src, dst, TCPView { header: h0, options: Seq::empty(), data });
    tcp_bytes(
        TCPView { header: TCPHeader { checksum: c as u16, ..h0 }, options: Seq::empty(), data },
    )
}

/// The header-length nibble round-trips: for a header of `hb` bytes (a
/// multiple of four up to 60), shifting into the nibble and back recovers
/// `hb`.
pub proof fn lemma_header_len_encoding(hb: u16)
    requires
        hb % 4 == 0,
        hb <= 60,
    ensures
        header_len_of(((hb << 10) & 0xF000) as int) == hb,
        (((hb << 10) & 0xF000) >> 10) == hb,
{
    assert((((hb << 10) & 0xF000) >> 10) == hb && ((((hb << 10) & 0xF000) / 0x1000) * 4) == hb)
        by (bit_vector)
        requires
            hb % 4 == 0,
            hb <= 60,
    ;
}

} // verus!
