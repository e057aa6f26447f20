//! The packet codec: the 16-bit one's-complement internet checksum and the
//! encoder/decoder for synthetic IPv4/UDP datagrams.

use vstd::arithmetic::div_mod::{
    lemma_add_mod_noop, lemma_fundamental_div_mod, lemma_mod_bound, lemma_mod_multiples_vanish,
    lemma_sub_mod_noop,
};
use vstd::prelude::*;
use vstd::slice::{slice_index_get, slice_subrange};

verus! {

/// Sum of a byte sequence read as big-endian 16-bit words; an odd trailing
/// byte counts as the high byte of a zero-padded word.
pub open spec fn wsum(s: Seq<u8>) -> int
    decreases s.len(),
{
    if s.len() >= 2 {
        s[0] * 256 + s[1] + wsum(s.skip(2))
    } else if s.len() == 1 {
        s[0] * 256
    } else {
        0
    }
}

/// Fold the carries of a word sum back into the low 16 bits until none
/// remain.
pub open spec fn fold16(n: int) -> int
    decreases n,
{
    if n < 0x10000 {
        n
    } else {
        fold16(n % 0x10000 + n / 0x10000)
    }
}

/// The internet checksum of a byte sequence: the one's complement of the
/// carry-folded big-endian word sum.
pub open spec fn checksum_spec(s: Seq<u8>) -> int {
    0xFFFF - fold16(wsum(s))
}

pub proof fn lemma_wsum_nonneg(s: Seq<u8>)
    ensures
        wsum(s) >= 0,
    decreases s.len(),
{
    if s.len() >= 2 {
        lemma_wsum_nonneg(s.skip(2));
    }
}

/// Carry folding computes the representative of `n` modulo 0xFFFF that lies
/// in `[1, 0xFFFF]`, except that 0 stays 0.
pub proof fn lemma_fold16_closed(n: int)
    requires
        n >= 0,
    ensures
        fold16(n) == if n == 0 {
            0int
        } else if n % 0xFFFF == 0 {
            0xFFFFint
        } else {
            n % 0xFFFF
        },
    decreases n,
{
    if n < 0x10000 {
        if n == 0xFFFF {
            assert(0xFFFFint % 0xFFFF == 0);
        }
    } else {
        let q = n / 0x10000;
        let r = n % 0x10000;
        lemma_fundamental_div_mod(n, 0x10000);
        assert(q >= 1);
        lemma_fold16_closed(q + r);
        lemma_mod_multiples_vanish(q, q + r, 0xFFFF);
        assert(0xFFFF * q + (q + r) == n);
    }
}

pub proof fn lemma_fold16_bounds(n: int)
    requires
        n >= 0,
    ensures
        0 <= fold16(n) <= 0xFFFF,
        fold16(n) % 0xFFFF == n % 0xFFFF,
        (fold16(n) == 0) <==> (n == 0),
        fold16(n) <= n,
{
    lemma_fold16_closed(n);
    if n != 0 && n % 0xFFFF == 0 {
        lemma_fundamental_div_mod(n, 0xFFFF);
        assert(n == 0xFFFF * (n / 0xFFFF));
        assert(n / 0xFFFF >= 1);
        assert(0xFFFFint % 0xFFFF == 0);
    }
}

/// Folding one summand first does not change the folded total.
pub proof fn lemma_fold16_add(a: int, b: int)
    requires
        a >= 0,
        b >= 0,
    ensures
        fold16(a + b) == fold16(fold16(a) + b),
{
    lemma_fold16_bounds(a);
    lemma_fold16_closed(a + b);
    lemma_fold16_closed(fold16(a) + b);
    lemma_add_mod_noop(fold16(a), b, 0xFFFF);
    lemma_add_mod_noop(a, b, 0xFFFF);
}

/// The word sum splits across a concatenation at an even offset.
pub proof fn lemma_wsum_concat(a: Seq<u8>, b: Seq<u8>)
    requires
        a.len() % 2 == 0,
    ensures
        wsum(a + b) == wsum(a) + wsum(b),
    decreases a.len(),
{
    if a.len() == 0 {
        assert(a + b =~= b);
    } else {
        assert((a + b).skip(2) =~= a.skip(2) + b);
        lemma_wsum_concat(a.skip(2), b);
        assert((a + b)[0] == a[0]);
        assert((a + b)[1] == a[1]);
    }
}

/// Compute the one's-complement internet checksum of a buffer.
pub fn checksum(data: &[u8]) -> (r: u16)
    ensures
        r == checksum_spec(data@),
{
    let n: usize = data.len();
    let mut sum: u32 = 0;
    let mut i: usize = 0;
    proof {
        assert(data@.skip(0) =~= data@);
    }
    while n - i >= 2
        invariant
            n == data@.len(),
            i <= n,
            sum < 0x10000,
            fold16(wsum(data@)) == fold16(sum + wsum(data@.skip(i as int))),
        decreases n - i,
    {
        let hi = *slice_index_get(data, i);
        let lo = *slice_index_get(data, i + 1);
        let w: u32 = (hi as u32) * 256 + (lo as u32);
        let s1: u32 = sum + w;
        let s2: u32 = if s1 >= 0x10000 {
            s1 - 0xFFFF
        } else {
            s1
        };
        proof {
            let rest = data@.skip(i as int);
            let rest2 = data@.skip(i as int + 2);
            assert(rest.skip(2) =~= rest2);
            assert(wsum(rest) == w + wsum(rest2));
            lemma_wsum_nonneg(rest2);
            if s1 >= 0x10000 {
                assert(s1 as int / 0x10000 == 1 && s1 as int % 0x10000 == s1 - 0x10000)
                    by (nonlinear_arith)
                    requires
                        0x10000 <= s1 < 0x20000,
                ;
                assert(fold16(s2 as int) == s2);
                assert(s1 as int % 0x10000 + s1 as int / 0x10000 == s2 as int);
                assert(fold16(s1 as int) == fold16(s2 as int));
            }
            assert(fold16(s1 as int) == s2);
            lemma_fold16_add(s1 as int, wsum(rest2));
            assert(fold16(sum + wsum(rest)) == fold16(s2 + wsum(rest2)));
        }
        sum = s2;
        i = i + 2;
    }
    if i < n {
        let hi = *slice_index_get(data, i);
        let w: u32 = (hi as u32) * 256;
        let s1: u32 = sum + w;
        let s2: u32 = if s1 >= 0x10000 {
            s1 - 0xFFFF
        } else {
            s1
        };
        proof {
            let rest = data@.skip(i as int);
            assert(rest.len() == 1);
            assert(rest[0] == data@[i as int]);
            assert(wsum(rest) == w);
            if s1 >= 0x10000 {
                assert(s1 as int / 0x10000 == 1 && s1 as int % 0x10000 == s1 - 0x10000)
                    by (nonlinear_arith)
                    requires
                        0x10000 <= s1 < 0x20000,
                ;
                assert(fold16(s2 as int) == s2);
                assert(s1 as int % 0x10000 + s1 as int / 0x10000 == s2 as int);
                assert(fold16(s1 as int) == fold16(s2 as int));
            }
            assert(fold16(s1 as int) == s2);
            assert(fold16(wsum(data@)) == s2);
        }
        sum = s2;
    } else {
        proof {
            let rest = data@.skip(i as int);
            assert(rest.len() == 0);
            assert(fold16(wsum(data@)) == sum);
        }
    }
    let res: u32 = 0xFFFF - sum;
    res as u16
}

/// An IPv4 address as its four octets.
#[derive(Clone, Copy, Debug, Hash, PartialEq, Eq, Structural)]
pub struct Ipv4Addr {
    pub o0: u8,
    pub o1: u8,
    pub o2: u8,
    pub o3: u8,
}

impl Ipv4Addr {
    pub fn new(a: u8, b: u8, c: u8, d: u8) -> (r: Ipv4Addr)
        ensures
            r == (Ipv4Addr { o0: a, o1: b, o2: c, o3: d }),
    {
        Ipv4Addr { o0: a, o1: b, o2: c, o3: d }
    }
}

pub open spec fn addr_bytes(a: Ipv4Addr) -> Seq<u8> {
    seq![a.o0, a.o1, a.o2, a.o3]
}

/// High byte of a 16-bit big-endian value.
pub open spec fn hi_byte(x: int) -> u8 {
    (x / 256) as u8
}

/// Low byte of a 16-bit big-endian value.
pub open spec fn lo_byte(x: int) -> u8 {
    (x % 256) as u8
}

pub proof fn lemma_hi_lo(x: int)
    requires
        0 <= x < 0x10000,
    ensures
        hi_byte(x) == x / 256,
        lo_byte(x) == x % 256,
        hi_byte(x) * 256 + lo_byte(x) == x,
        0 <= x / 256 < 256,
        0 <= x % 256 < 256,
{
    lemma_fundamental_div_mod(x, 256);
    lemma_mod_bound(x, 256);
}

/// The first ten bytes of the IPv4 header: version/IHL 0x45, zero DSCP/ECN,
/// the total length, zero identification, don't-fragment flags, TTL 64 and
/// protocol 17 (UDP).
pub open spec fn ip_header_front(total_len: int) -> Seq<u8> {
    seq![0x45u8, 0x00u8, hi_byte(total_len), lo_byte(total_len), 0x00u8, 0x00u8, 0x40u8, 0x00u8, 64u8, 17u8]
}

/// The last eight bytes of the IPv4 header: the source and destination
/// addresses.
pub open spec fn ip_header_back(src: Ipv4Addr, dst: Ipv4Addr) -> Seq<u8> {
    addr_bytes(src) + addr_bytes(dst)
}

/// The 20-byte IPv4 header with the checksum field still zero.
pub open spec fn header_zero_checksum(plen: int, src: Ipv4Addr, dst: Ipv4Addr) -> Seq<u8> {
    ip_header_front(28 + plen) + seq![0u8, 0u8] + ip_header_back(src, dst)
}

/// The 20-byte IPv4 header with its checksum filled in.
pub open spec fn ip_header_spec(plen: int, src: Ipv4Addr, dst: Ipv4Addr) -> Seq<u8> {
    let c = checksum_spec(header_zero_checksum(plen, src, dst));
    ip_header_front(28 + plen) + seq![hi_byte(c), lo_byte(c)] + ip_header_back(src, dst)
}

/// The 8-byte UDP header: ports, UDP length, and a zero checksum field (the
/// UDP checksum is deliberately not computed).
pub open spec fn udp_header_spec(sp: u16, dp: u16, plen: int) -> Seq<u8> {
    seq![hi_byte(sp as int), lo_byte(sp as int), hi_byte(dp as int), lo_byte(dp as int), hi_byte(8 + plen), lo_byte(8 + plen), 0u8, 0u8]
}

/// The complete encoded packet for a payload and its endpoint metadata.
pub open spec fn encode_spec(payload: Seq<u8>, src: Ipv4Addr, dst: Ipv4Addr, sp: u16, dp: u16) -> Seq<u8> {
    ip_header_spec(payload.len() as int, src, dst) + udp_header_spec(sp, dp, payload.len() as int)
        + payload
}

/// Writing the complement of the folded sum into a zeroed word of a buffer
/// makes the whole buffer's checksum fold to zero.
pub proof fn lemma_checksum_insert(front: Seq<u8>, back: Seq<u8>)
    requires
        front.len() % 2 == 0,
    ensures
        ({
            let c = checksum_spec(front + seq![0u8, 0u8] + back);
            checksum_spec(front + seq![hi_byte(c as int), lo_byte(c as int)] + back) == 0
        }),
{
    let zs = seq![0u8, 0u8];
    lemma_wsum_nonneg(front);
    lemma_wsum_nonneg(back);
    lemma_wsum_concat(front + zs, back);
    lemma_wsum_concat(front, zs);
    assert(wsum(zs.skip(2)) == 0);
    assert(wsum(zs) == 0);
    let s0 = wsum(front + zs + back);
    let f = fold16(s0);
    lemma_fold16_bounds(s0);
    let c = 0xFFFF - f;
    lemma_hi_lo(c);
    let cs = seq![hi_byte(c), lo_byte(c)];
    lemma_wsum_concat(front + cs, back);
    lemma_wsum_concat(front, cs);
    assert(wsum(cs.skip(2)) == 0);
    assert(wsum(cs) == c);
    let s1 = wsum(front + cs + back);
    assert(s1 == s0 + c);
    // s1 is a positive multiple of 0xFFFF, so it folds to 0xFFFF.
    lemma_sub_mod_noop(s0, f, 0xFFFF);
    assert((s0 - f) % 0xFFFF == 0);
    lemma_mod_multiples_vanish(1, s0 - f, 0xFFFF);
    assert(0xFFFF * 1 + (s0 - f) == s1);
    assert(s1 % 0xFFFF == 0);
    assert(s1 > 0);
    lemma_fold16_closed(s1);
    assert(fold16(s1) == 0xFFFF);
}

/// Build a synthetic IPv4/UDP datagram around a payload.  The layout is
/// fixed: a 20-byte IPv4 header with a computed header checksum, an 8-byte
/// UDP header whose checksum field is intentionally zero, then the payload.
pub fn create_ipv4_udp_packet(
    payload: &[u8],
    src_ip: Ipv4Addr,
    dst_ip: Ipv4Addr,
    src_port: u16,
    dst_port: u16,
) -> (r: Vec<u8>)
    requires
        payload@.len() + 28 <= 0xFFFF,
    ensures
        r@ == encode_spec(payload@, src_ip, dst_ip, src_port, dst_port),
        r@.len() == 28 + payload@.len(),
        checksum_spec(r@.take(20)) == 0,
{
    let plen: usize = payload.len();
    let total: u16 = (plen + 28) as u16;
    let udp_len: u16 = (plen + 8) as u16;
    let mut p: Vec<u8> = Vec::new();
    p.push(0x45);
    p.push(0x00);
    p.push((total / 256) as u8);
    p.push((total % 256) as u8);
    p.push(0x00);
    p.push(0x00);
    p.push(0x40);
    p.push(0x00);
    p.push(64);
    p.push(17);
    p.push(0x00);
    p.push(0x00);
    p.push(src_ip.o0);
    p.push(src_ip.o1);
    p.push(src_ip.o2);
    p.push(src_ip.o3);
    p.push(dst_ip.o0);
    p.push(dst_ip.o1);
    p.push(dst_ip.o2);
    p.push(dst_ip.o3);
    proof {
        lemma_hi_lo(total as int);
        assert(p@ =~= header_zero_checksum(plen as int, src_ip, dst_ip));
    }
    let c: u16 = checksum(p.as_slice());
    proof {
        lemma_wsum_nonneg(p@);
        lemma_fold16_bounds(wsum(p@));
        lemma_hi_lo(c as int);
    }
    p[10] = (c / 256) as u8;
    p[11] = (c % 256) as u8;
    let ghost hdr = ip_header_spec(plen as int, src_ip, dst_ip);
    proof {
        assert(p@ =~= hdr);
    }
    p.push((src_port / 256) as u8);
    p.push((src_port % 256) as u8);
    p.push((dst_port / 256) as u8);
    p.push((dst_port % 256) as u8);
    p.push((udp_len / 256) as u8);
    p.push((udp_len % 256) as u8);
    p.push(0x00);
    p.push(0x00);
    let ghost head = hdr + udp_header_spec(src_port, dst_port, plen as int);
    proof {
        lemma_hi_lo(src_port as int);
        lemma_hi_lo(dst_port as int);
        lemma_hi_lo(udp_len as int);
        assert(p@ =~= head + payload@.take(0));
    }
    let mut k: usize = 0;
    while k < plen
        invariant
            k <= plen,
            plen == payload@.len(),
            p@ == head + payload@.take(k as int),
        decreases plen - k,
    {
        p.push(*slice_index_get(payload, k));
        proof {
            assert(p@ =~= head + payload@.take(k as int + 1));
        }
        k = k + 1;
    }
    proof {
        assert(payload@.take(plen as int) =~= payload@);
        assert(p@ == encode_spec(payload@, src_ip, dst_ip, src_port, dst_port));
        lemma_checksum_insert(
            ip_header_front(28 + plen as int),
            ip_header_back(src_ip, dst_ip),
        );
        assert(p@.take(20) =~= hdr);
    }
    p
}

/// The declared IPv4 header length in bytes: the low four bits of the first
/// byte, counted in 32-bit words.
pub open spec fn ihl_spec(s: Seq<u8>) -> int {
    (s[0] as int % 16) * 4
}

/// The big-endian 16-bit word at offset `i`.
pub open spec fn word_at(s: Seq<u8>, i: int) -> int {
    s[i] * 256 + s[i + 1]
}

pub open spec fn src_addr_spec(s: Seq<u8>) -> Ipv4Addr {
    Ipv4Addr { o0: s[12], o1: s[13], o2: s[14], o3: s[15] }
}

pub open spec fn dst_addr_spec(s: Seq<u8>) -> Ipv4Addr {
    Ipv4Addr { o0: s[16], o1: s[17], o2: s[18], o3: s[19] }
}

pub open spec fn src_port_spec(s: Seq<u8>) -> int {
    word_at(s, ihl_spec(s))
}

pub open spec fn dst_port_spec(s: Seq<u8>) -> int {
    word_at(s, ihl_spec(s) + 2)
}

pub open spec fn udp_len_spec(s: Seq<u8>) -> int {
    word_at(s, ihl_spec(s) + 4)
}

pub open spec fn udp_checksum_spec(s: Seq<u8>) -> int {
    word_at(s, ihl_spec(s) + 6)
}

/// The buffer whose checksum validates a non-zero UDP checksum: the
/// pseudo-header (addresses, a zero byte, protocol 17, the UDP length)
/// followed by the UDP header and payload as transmitted.
pub open spec fn pseudo_header_spec(s: Seq<u8>) -> Seq<u8> {
    let ulen = udp_len_spec(s);
    s.subrange(12, 20) + seq![0u8, 17u8] + seq![hi_byte(ulen), lo_byte(ulen)]
        + s.subrange(ihl_spec(s), ihl_spec(s) + ulen)
}

/// A buffer parses as a valid IPv4/UDP packet when it is long enough, its
/// declared header length is at least 20 bytes and lies within the buffer,
/// its declared total length equals the buffer length, its protocol is UDP,
/// its header checksum folds to zero, its UDP length covers at least the UDP
/// header and stays within the buffer, and its UDP checksum is either absent
/// (zero) or validates against the pseudo-header.
///
/// The UDP checksum rule is, deliberately, the lenient one: a non-zero
/// declared checksum is accepted exactly when the sum over the pseudo-header
/// and the UDP datagram as transmitted folds to zero.  The declared value
/// itself is never compared against a recomputation.
pub open spec fn parse_ok(s: Seq<u8>) -> bool {
    &&& s.len() >= 28
    &&& ihl_spec(s) >= 20
    &&& word_at(s, 2) == s.len()
    &&& s[9] == 17
    &&& ihl_spec(s) <= s.len()
    &&& checksum_spec(s.take(ihl_spec(s))) == 0
    &&& udp_len_spec(s) >= 8
    &&& ihl_spec(s) + udp_len_spec(s) <= s.len()
    &&& (udp_checksum_spec(s) == 0 || checksum_spec(pseudo_header_spec(s)) == 0)
}

/// The payload carried by a valid packet: the bytes after the UDP header, up
/// to the declared UDP length.
pub open spec fn payload_spec(s: Seq<u8>) -> Seq<u8> {
    s.subrange(ihl_spec(s) + 8, ihl_spec(s) + udp_len_spec(s))
}

/// Parse a raw IPv4/UDP packet into (source address, destination address,
/// source port, destination port, payload).  Malformed buffers yield `None`;
/// `parse_ok` states exactly which buffers are accepted.  A declared header
/// length that reaches past the end of the buffer is rejected rather than
/// read.
pub fn parse_ipv4_udp_packet<'a>(packet: &'a [u8]) -> (r: Option<
    (Ipv4Addr, Ipv4Addr, u16, u16, &'a [u8]),
>)
    ensures
        r is Some <==> parse_ok(packet@),
        r matches Some(t) ==> {
            &&& t.0 == src_addr_spec(packet@)
            &&& t.1 == dst_addr_spec(packet@)
            &&& t.2 == src_port_spec(packet@)
            &&& t.3 == dst_port_spec(packet@)
            &&& t.4@ == payload_spec(packet@)
        },
{
    let n: usize = packet.len();
    if n < 28 {
        return None;
    }
    let b0 = *slice_index_get(packet, 0);
    proof {
        assert(b0 & 0x0F == b0 % 16) by (bit_vector);
    }
    let ihl: usize = ((b0 & 0x0F) as usize) * 4;
    if ihl < 20 {
        return None;
    }
    let b2 = *slice_index_get(packet, 2);
    let b3 = *slice_index_get(packet, 3);
    let total_length: usize = (b2 as usize) * 256 + (b3 as usize);
    if total_length != n {
        return None;
    }
    let proto = *slice_index_get(packet, 9);
    if proto != 17 {
        return None;
    }
    if ihl > n {
        return None;
    }
    let header = slice_subrange(packet, 0, ihl);
    proof {
        assert(packet@.subrange(0, ihl as int) =~= packet@.take(ihl as int));
    }
    let ip_ck = checksum(header);
    if ip_ck != 0 {
        return None;
    }
    if ihl + 8 > n {
        // A valid UDP length (at least 8, within the buffer) is impossible
        // when the UDP header itself would reach past the end.
        return None;
    }
    let src_ip = Ipv4Addr::new(
        *slice_index_get(packet, 12),
        *slice_index_get(packet, 13),
        *slice_index_get(packet, 14),
        *slice_index_get(packet, 15),
    );
    let dst_ip = Ipv4Addr::new(
        *slice_index_get(packet, 16),
        *slice_index_get(packet, 17),
        *slice_index_get(packet, 18),
        *slice_index_get(packet, 19),
    );
    let src_port: u16 = (*slice_index_get(packet, ihl) as u16) * 256 + (*slice_index_get(
        packet,
        ihl + 1,
    ) as u16);
    let dst_port: u16 = (*slice_index_get(packet, ihl + 2) as u16) * 256 + (*slice_index_get(
        packet,
        ihl + 3,
    ) as u16);
    let udp_length: usize = (*slice_index_get(packet, ihl + 4) as usize) * 256 + (*slice_index_get(
        packet,
        ihl + 5,
    ) as usize);
    if udp_length < 8 {
        return None;
    }
    if ihl + udp_length > n {
        return None;
    }
    let udp_checksum: u16 = (*slice_index_get(packet, ihl + 6) as u16) * 256 + (*slice_index_get(
        packet,
        ihl + 7,
    ) as u16);
    if udp_checksum != 0 {
        let mut ph: Vec<u8> = Vec::new();
        ph.push(src_ip.o0);
        ph.push(src_ip.o1);
        ph.push(src_ip.o2);
        ph.push(src_ip.o3);
        ph.push(dst_ip.o0);
        ph.push(dst_ip.o1);
        ph.push(dst_ip.o2);
        ph.push(dst_ip.o3);
        ph.push(0);
        ph.push(17);
        ph.push((udp_length / 256) as u8);
        ph.push((udp_length % 256) as u8);
        let ghost ph_front = ph@;
        let mut k: usize = ihl;
        while k < ihl + udp_length
            invariant
                ihl <= k <= ihl + udp_length,
                ihl + udp_length <= n,
                n == packet@.len(),
                ph@ == ph_front + packet@.subrange(ihl as int, k as int),
            decreases ihl + udp_length - k,
        {
            ph.push(*slice_index_get(packet, k));
            proof {
                assert(ph@ =~= ph_front + packet@.subrange(ihl as int, k as int + 1));
            }
            k = k + 1;
        }
        proof {
            lemma_hi_lo(udp_length as int);
            assert(ph@ =~= pseudo_header_spec(packet@));
        }
        let computed = checksum(ph.as_slice());
        if computed != 0 {
            return None;
        }
    }
    let payload = slice_subrange(packet, ihl + 8, ihl + udp_length);
    Some((src_ip, dst_ip, src_port, dst_port, payload))
}

/// Round trip: for any payload of at most 1450 bytes, any address pair and
/// any port pair, decoding the encoded packet succeeds and recovers exactly
/// the payload and metadata that were encoded.
pub proof fn lemma_round_trip(payload: Seq<u8>, src: Ipv4Addr, dst: Ipv4Addr, sp: u16, dp: u16)
    requires
        payload.len() <= 1450,
    ensures
        ({
            let s = encode_spec(payload, src, dst, sp, dp);
            &&& parse_ok(s)
            &&& ihl_spec(s) == 20
            &&& s.len() == 28 + payload.len()
            &&& src_addr_spec(s) == src
            &&& dst_addr_spec(s) == dst
            &&& src_port_spec(s) == sp
            &&& dst_port_spec(s) == dp
            &&& payload_spec(s) == payload
        }),
{
    let plen = payload.len() as int;
    let total = 28 + plen;
    let s = encode_spec(payload, src, dst, sp, dp);
    let hdr = ip_header_spec(plen, src, dst);
    let uh = udp_header_spec(sp, dp, plen);
    lemma_hi_lo(total);
    lemma_hi_lo(8 + plen);
    lemma_hi_lo(sp as int);
    lemma_hi_lo(dp as int);
    assert(s.len() == 28 + plen);
    assert(s[0] == 0x45);
    assert(ihl_spec(s) == 20);
    assert(word_at(s, 2) == total);
    assert(s[9] == 17);
    lemma_checksum_insert(ip_header_front(total), ip_header_back(src, dst));
    assert(s.take(20) =~= hdr);
    assert(checksum_spec(s.take(20)) == 0);
    assert(s[24] == hi_byte(8 + plen) && s[25] == lo_byte(8 + plen));
    assert(udp_len_spec(s) == 8 + plen);
    assert(s[26] == 0 && s[27] == 0);
    assert(udp_checksum_spec(s) == 0);
    assert(src_port_spec(s) == sp);
    assert(dst_port_spec(s) == dp);
    assert(payload_spec(s) =~= payload);
}

/// The byte sequence `s` with bit `b` of byte `i` inverted.
pub open spec fn flip_bit(s: Seq<u8>, i: int, b: int) -> Seq<u8> {
    s.update(i, s[i] ^ (1u8 << b as u8))
}

proof fn lemma_xor_bit(x: u8, bb: u8)
    by (bit_vector)
    requires
        bb < 8,
    ensures
        1 <= (1u8 << bb) <= 0x80,
        x ^ (1u8 << bb) != x,
        x & (1u8 << bb) == 0 ==> x ^ (1u8 << bb) == x + (1u8 << bb),
        x & (1u8 << bb) != 0 ==> x ^ (1u8 << bb) == x - (1u8 << bb),
{
}

/// A word sum that folds to 0xFFFF is a positive multiple of 0xFFFF.
proof fn lemma_sum_of_valid_header(t: Seq<u8>)
    requires
        checksum_spec(t) == 0,
    ensures
        wsum(t) >= 0xFFFF,
        wsum(t) % 0xFFFF == 0,
{
    lemma_wsum_nonneg(t);
    let s = wsum(t);
    lemma_fold16_closed(s);
    lemma_mod_bound(s, 0xFFFF);
    assert(s % 0xFFFF == 0);
    lemma_fundamental_div_mod(s, 0xFFFF);
    assert(s == 0xFFFF * (s / 0xFFFF));
    assert(s / 0xFFFF >= 1);
}

/// Perturbing a positive multiple of 0xFFFF by a non-zero amount smaller
/// than 0xFFFF leaves a sum that no longer folds to 0xFFFF.
proof fn lemma_perturbed_sum(s: int, delta: int)
    requires
        s >= 0xFFFF,
        s % 0xFFFF == 0,
        0 < delta < 0xFFFF || -0xFFFF < delta < 0,
    ensures
        s + delta >= 0,
        fold16(s + delta) != 0xFFFF,
{
    let m = 0xFFFFint;
    lemma_fundamental_div_mod(s, m);
    let q = s / m;
    assert(s == m * q);
    assert(q >= 1);
    if delta > 0 {
        // s + delta == m * q + delta with 0 < delta < m
        lemma_mod_multiples_vanish(q, delta, m);
        assert(m * q + delta == s + delta);
        assert(delta % m == delta);
        assert((s + delta) % m == delta);
    } else {
        // s + delta == m * (q - 1) + (m + delta) with 0 < m + delta < m
        lemma_mod_multiples_vanish(q - 1, m + delta, m);
        assert(m * (q - 1) + (m + delta) == s + delta);
        assert((m + delta) % m == m + delta);
        assert((s + delta) % m == m + delta);
    }
    lemma_fold16_closed(s + delta);
}

/// Checksum integrity: flipping one bit of any byte of the encoded IPv4
/// header other than the first causes decoding to reject the packet.
pub proof fn lemma_bit_flip_in_header_detected(
    payload: Seq<u8>,
    src: Ipv4Addr,
    dst: Ipv4Addr,
    sp: u16,
    dp: u16,
    i: int,
    b: int,
)
    requires
        payload.len() <= 1450,
        1 <= i < 20,
        0 <= b < 8,
    ensures
        !parse_ok(flip_bit(encode_spec(payload, src, dst, sp, dp), i, b)),
{
    let s = encode_spec(payload, src, dst, sp, dp);
    let f = flip_bit(s, i, b);
    lemma_round_trip(payload, src, dst, sp, dp);
    let x = s[i];
    let y = x ^ (1u8 << b as u8);
    lemma_xor_bit(x, b as u8);
    assert(f.len() == s.len());
    if i == 2 || i == 3 {
        // The declared total length no longer matches the buffer length.
        assert(word_at(f, 2) != word_at(s, 2));
        assert(!(word_at(f, 2) == f.len()));
    } else if i == 9 {
        // The protocol byte is no longer 17.
        assert(f[9] != 17);
    } else {
        // The header checksum no longer folds to zero: the word sum moves by
        // a non-zero amount of magnitude at most 0x8000 away from a multiple
        // of 0xFFFF.
        assert(f[0] == s[0]);
        assert(ihl_spec(f) == 20);
        let t = s.take(20);
        let u = f.take(20);
        assert(u =~= t.update(i, y));
        let j = if i % 2 == 0 { i } else { i - 1 };
        let a = t.subrange(0, j);
        let w = t.subrange(j, j + 2);
        let bk = t.subrange(j + 2, 20);
        let w2 = u.subrange(j, j + 2);
        assert(t =~= a + w + bk);
        assert(u =~= a + w2 + bk);
        assert(a.len() % 2 == 0);
        assert((a + w).len() % 2 == 0);
        lemma_wsum_concat(a + w, bk);
        lemma_wsum_concat(a, w);
        lemma_wsum_concat(a + w2, bk);
        lemma_wsum_concat(a, w2);
        assert(wsum(w.skip(2)) == 0);
        assert(wsum(w2.skip(2)) == 0);
        assert(wsum(w) == w[0] * 256 + w[1]);
        assert(wsum(w2) == w2[0] * 256 + w2[1]);
        let d = if i == j {
            (y - x) * 256
        } else {
            y - x
        };
        assert(wsum(u) - wsum(t) == d);
        lemma_sum_of_valid_header(t);
        lemma_perturbed_sum(wsum(t), d);
        assert(fold16(wsum(u)) != 0xFFFF);
        assert(checksum_spec(f.take(ihl_spec(f))) != 0);
    }
}

/// A single bit flip anywhere in the first 20 bytes of an encoded packet is
/// rejected by the decoder, unless the flipped buffer's declared header
/// still has a checksum that folds to zero.
pub proof fn lemma_bit_flip_detected(
    payload: Seq<u8>,
    src: Ipv4Addr,
    dst: Ipv4Addr,
    sp: u16,
    dp: u16,
    i: int,
    b: int,
)
    requires
        payload.len() <= 1450,
        0 <= i < 20,
        0 <= b < 8,
        checksum_spec(
            flip_bit(encode_spec(payload, src, dst, sp, dp), i, b).take(
                ihl_spec(flip_bit(encode_spec(payload, src, dst, sp, dp), i, b)),
            ),
        ) != 0,
    ensures
        !parse_ok(flip_bit(encode_spec(payload, src, dst, sp, dp), i, b)),
{
}

/// Length tampering: truncating an encoded packet by any number of trailing
/// bytes causes decoding to reject it.
pub proof fn lemma_truncation_detected(
    payload: Seq<u8>,
    src: Ipv4Addr,
    dst: Ipv4Addr,
    sp: u16,
    dp: u16,
    k: int,
)
    requires
        payload.len() <= 1450,
        0 <= k < 28 + payload.len(),
    ensures
        !parse_ok(encode_spec(payload, src, dst, sp, dp).take(k)),
{
    let s = encode_spec(payload, src, dst, sp, dp);
    let t = s.take(k);
    lemma_round_trip(payload, src, dst, sp, dp);
    if k >= 28 {
        assert(t[2] == s[2] && t[3] == s[3]);
        assert(word_at(t, 2) == word_at(s, 2));
        assert(word_at(t, 2) != t.len());
    }
}

/// Wrong protocol: a buffer identical to a valid encoding except for a
/// protocol byte other than 17 is rejected by the decoder.
pub proof fn lemma_wrong_protocol_detected(
    payload: Seq<u8>,
    src: Ipv4Addr,
    dst: Ipv4Addr,
    sp: u16,
    dp: u16,
    p: u8,
)
    requires
        payload.len() <= 1450,
        p != 17,
    ensures
        !parse_ok(encode_spec(payload, src, dst, sp, dp).update(9, p)),
{
    assert(encode_spec(payload, src, dst, sp, dp).update(9, p)[9] == p);
}

} // verus!
