use vstd::prelude::*;

use crate::encoding::{lemma_bytes_deep_view, sub_bytes};
use crate::tcp::{
    built_segment, compute_segment_checksum, parse_ok, parse_tcp, tcp_bytes,
    Ipv4Addr, TCPHeader, TCPView, TCP, TCP_ACK, TCP_FIN, TCP_PSH, TCP_SYN,
};

verus! {

/// The raw-IP transport under a TCP endpoint: the datagrams still to be
/// read, front first (an empty queue reads as a closed transport), the
/// datagrams written so far, and the peer address the transport is bound
/// to.
pub struct IpLink {
    pub peer: Ipv4Addr,
    pub rx: Vec<Vec<u8>>,
    pub tx: Vec<Vec<u8>>,
}

impl IpLink {
    /// A transport bound to `peer` that will deliver `rx`, in order.
    pub fn new(peer: Ipv4Addr, rx: Vec<Vec<u8>>) -> (r: IpLink)
        ensures
            r.peer == peer,
            r.rx == rx,
            r.tx.len() == 0,
    {
        IpLink { peer, rx, tx: Vec::new() }
    }

    /// Read the next whole datagram; a closed (drained) transport yields
    /// nothing.
    pub fn read_datagram(&mut self) -> (r: Option<Vec<u8>>)
        ensures
            final(self).peer == old(self).peer,
            final(self).tx == old(self).tx,
            old(self).rx.len() == 0 ==> r is None && final(self).rx == old(self).rx,
            old(self).rx.len() > 0 ==> (r matches Some(d) && d@ == old(self).rx.deep_view()[0]
                && final(self).rx.deep_view() == old(self).rx.deep_view().skip(1)),
    {
        if self.rx.len() == 0 {
            return None;
        }
        let d = self.rx.remove(0);
        proof {
            lemma_bytes_deep_view(d);
            assert(final(self).rx.deep_view() =~= old(self).rx.deep_view().skip(1)) by {
                assert(forall|k: int|
                    0 <= k < self.rx@.len() ==> self.rx@[k] == old(self).rx@[k + 1]);
            }
            assert(d@ == old(self).rx@[0].deep_view());
        }
        Some(d)
    }

    /// Send one datagram.
    pub fn write_datagram(&mut self, d: Vec<u8>)
        ensures
            final(self).peer == old(self).peer,
            final(self).rx == old(self).rx,
            final(self).tx.deep_view() == old(self).tx.deep_view().push(d@),
    {
        let ghost dv = d@;
        self.tx.push(d);
        proof {
            lemma_bytes_deep_view(self.tx@[self.tx@.len() - 1]);
            assert(final(self).tx.deep_view() =~= old(self).tx.deep_view().push(dv));
        }
    }

    /// An independent handle carrying the same queues.
    pub fn dup(&self) -> (r: IpLink)
        ensures
            r.peer == self.peer,
            r.rx.deep_view() == self.rx.deep_view(),
            r.tx.deep_view() == self.tx.deep_view(),
    {
        let rx = clone_datagrams(&self.rx);
        let tx = clone_datagrams(&self.tx);
        IpLink { peer: self.peer, rx, tx }
    }

    /// Nothing is buffered below a raw link; sync always succeeds.
    pub fn sync(&mut self) -> (r: bool)
        ensures
            *final(self) == *old(self),
            r == true,
    {
        true
    }
}

/// Copy a queue of datagrams.
fn clone_datagrams(v: &Vec<Vec<u8>>) -> (r: Vec<Vec<u8>>)
    ensures
        r.deep_view() == v.deep_view(),
{
    let mut r: Vec<Vec<u8>> = Vec::new();
    let mut i: usize = 0;
    while i < v.len()
        invariant
            i <= v.len(),
            r@.len() == i,
            forall|k: int| 0 <= k < i ==> (#[trigger] r@[k])@ == v@[k]@,
        decreases v.len() - i,
    {
        let d = sub_bytes(&v[i], 0, v[i].len());
        proof {
            assert(d@ =~= v@[i as int]@);
        }
        r.push(d);
        i = i + 1;
    }
    proof {
        assert(r.deep_view() =~= v.deep_view()) by {
            assert forall|k: int| 0 <= k < v@.len() implies r.deep_view()[k] == v.deep_view()[k] by {
                lemma_bytes_deep_view(r@[k]);
                lemma_bytes_deep_view(v@[k]);
            }
        }
    }
    r
}

/// Does a segment belong to this connection?  Its destination must be our
/// port and its source the peer's.
pub open spec fn seg_matches(t: TCPView, host_port: u16, peer_port: u16) -> bool {
    t.header.dst == host_port && t.header.src == peer_port
}

/// The flags of a segment under the mask the endpoint inspects.
pub open spec fn mask_of(t: TCPView) -> u16 {
    t.header.flags & (TCP_PSH | TCP_SYN | TCP_ACK)
}

/// A datagram carrying data for this connection: it parses, its ports
/// match, and its masked flags are exactly PSH and ACK.
pub open spec fn data_seg(s: Seq<u8>, hp: u16, pp: u16) -> bool {
    parse_ok(s) && seg_matches(parse_tcp(s), hp, pp) && mask_of(parse_tcp(s)) == (TCP_PSH | TCP_ACK)
}

/// A datagram for this connection, whatever its flags.
pub open spec fn port_seg(s: Seq<u8>, hp: u16, pp: u16) -> bool {
    parse_ok(s) && seg_matches(parse_tcp(s), hp, pp)
}

/// A datagram opening a connection to `local`: it parses, targets the
/// port, and its masked flags are exactly SYN.
pub open spec fn syn_seg(s: Seq<u8>, local: u16) -> bool {
    parse_ok(s) && parse_tcp(s).header.dst == local && mask_of(parse_tcp(s)) == TCP_SYN
}

/// Index of the first data-carrying datagram at or after `from`, or the
/// queue length when there is none.
pub open spec fn first_data_seg(rx: Seq<Seq<u8>>, from: int, hp: u16, pp: u16) -> int
    decreases rx.len() - from,
{
    if from < 0 || from >= rx.len() {
        rx.len() as int
    } else if data_seg(rx[from], hp, pp) {
        from
    } else {
        first_data_seg(rx, from + 1, hp, pp)
    }
}

/// Index of the first datagram of this connection at or after `from`, or
/// the queue length when there is none.
pub open spec fn first_port_seg(rx: Seq<Seq<u8>>, from: int, hp: u16, pp: u16) -> int
    decreases rx.len() - from,
{
    if from < 0 || from >= rx.len() {
        rx.len() as int
    } else if port_seg(rx[from], hp, pp) {
        from
    } else {
        first_port_seg(rx, from + 1, hp, pp)
    }
}

/// Index of the first connection request for `local` at or after `from`,
/// or the queue length when there is none.
pub open spec fn first_syn_seg(rx: Seq<Seq<u8>>, from: int, local: u16) -> int
    decreases rx.len() - from,
{
    if from < 0 || from >= rx.len() {
        rx.len() as int
    } else if syn_seg(rx[from], local) {
        from
    } else {
        first_syn_seg(rx, from + 1, local)
    }
}

/// A 32-bit sum as sequence numbers wrap.
pub open spec fn wrap32(x: int) -> u32 {
    (x % 0x1_0000_0000) as u32
}

/// A TCP connection endpoint: its transport, the peer's address and port,
/// our port, and the two counters of the sliding exchange — `sequence`,
/// the next byte number we will send, and `acknowledge`, the next peer
/// byte we expect.  `host_addr` is this host's address, used in the
/// pseudo-header.
pub struct Resource {
    pub ip: IpLink,
    pub peer_addr: Ipv4Addr,
    pub peer_port: u16,
    pub host_port: u16,
    pub sequence: u32,
    pub acknowledge: u32,
    pub host_addr: Ipv4Addr,
}

impl Resource {
    /// Build one outgoing segment with the given flags and payload: bare
    /// 20-byte header, our ports and counters, the fixed window, and the
    /// checksum over the pseudo-header.
    fn make_segment(&self, flags: u16, data: Vec<u8>) -> (r: TCP)
        requires
            data.len() <= 0xFFDF,
        ensures
            tcp_bytes(r@) == built_segment(
                self.host_addr,
                self.peer_addr,
                self.host_port,
                self.peer_port,
                self.sequence,
                self.acknowledge,
                flags,
                data@,
            ),
    {
        let mut t = TCP {
            header: TCPHeader {
                src: self.host_port,
                dst: self.peer_port,
                sequence: self.sequence,
                ack_num: self.acknowledge,
                flags: 0x5000u16 | flags,
                window_size: 65535,
                checksum: 0,
                urgent_pointer: 0,
            },
            options: Vec::new(),
            data,
        };
        let c = compute_segment_checksum(self.host_addr, self.peer_addr, &t);
        t.header.checksum = c;
        t
    }

    /// Send one segment built from the current state; what lands on the
    /// transport is exactly its serialization.
    fn send_segment(&mut self, flags: u16, data: Vec<u8>)
        requires
            data.len() <= 0xFFDF,
        ensures
            final(self).ip.peer == old(self).ip.peer,
            final(self).ip.rx == old(self).ip.rx,
            final(self).peer_addr == old(self).peer_addr,
            final(self).peer_port == old(self).peer_port,
            final(self).host_port == old(self).host_port,
            final(self).sequence == old(self).sequence,
            final(self).acknowledge == old(self).acknowledge,
            final(self).host_addr == old(self).host_addr,
            final(self).ip.tx.deep_view() == old(self).ip.tx.deep_view().push(
                built_segment(
                    old(self).host_addr,
                    old(self).peer_addr,
                    old(self).host_port,
                    old(self).peer_port,
                    old(self).sequence,
                    old(self).acknowledge,
                    flags,
                    data@,
                ),
            ),
    {
        let seg = self.make_segment(flags, data);
        let bytes = seg.to_bytes();
        self.ip.write_datagram(bytes);
    }

    /// Receive data: discard datagrams until one of this connection with
    /// masked flags PSH and ACK arrives, take its acknowledgement, advance
    /// `acknowledge` over the whole payload, answer with a pure ACK, and
    /// copy as much of the payload as `buf` holds — a longer payload is
    /// truncated, though fully acknowledged.  A drained transport yields
    /// nothing.
    #[verifier::loop_isolation(false)]
    pub fn read(&mut self, buf: &mut Vec<u8>) -> (r: Option<usize>)
        ensures
            final(self).peer_addr == old(self).peer_addr,
            final(self).peer_port == old(self).peer_port,
            final(self).host_port == old(self).host_port,
            final(self).host_addr == old(self).host_addr,
            final(self).ip.peer == old(self).ip.peer,
            ({
                let rx0 = old(self).ip.rx.deep_view();
                let hp = old(self).host_port;
                let pp = old(self).peer_port;
                let idx = first_data_seg(rx0, 0, hp, pp);
                &&& (idx == rx0.len() ==> r is None && final(self).ip.rx.len() == 0 && final(self).ip.tx == old(self).ip.tx && final(self).sequence == old(self).sequence && final(self).acknowledge == old(self).acknowledge && *final(buf) == *old(buf))
                &&& (idx < rx0.len() ==> ({
                    let t = parse_tcp(rx0[idx]);
                    let newseq = t.header.ack_num;
                    let newack = wrap32(t.header.sequence + t.data.len());
                    let n = crate::resource::min_nat(old(buf).len() as int, t.data.len() as int);
                    &&& r == Some(n as usize)
                    &&& final(self).sequence == newseq
                    &&& final(self).acknowledge == newack
                    &&& final(self).ip.rx.deep_view() == rx0.skip(idx + 1)
                    &&& final(self).ip.tx.deep_view() == old(self).ip.tx.deep_view().push(
                        built_segment(
                            old(self).host_addr,
                            old(self).peer_addr,
                            hp,
                            pp,
                            newseq,
                            newack,
                            TCP_ACK,
                            Seq::empty(),
                        ),
                    )
                    &&& final(buf).len() == old(buf).len()
                    &&& final(buf)@ == t.data.take(n) + old(buf)@.skip(n)
                }))
            }),
    {
        let ghost rx0 = self.ip.rx.deep_view();
        let ghost hp = self.host_port;
        let ghost pp = self.peer_port;
        let ghost mut consumed: int = 0;
        proof {
            assert(rx0.skip(0) =~= rx0);
        }
        loop
            invariant
                0 <= consumed <= rx0.len(),
                self.ip.rx.deep_view() == rx0.skip(consumed),
                first_data_seg(rx0, 0, hp, pp) == first_data_seg(rx0, consumed, hp, pp),
                self.peer_addr == old(self).peer_addr,
                self.peer_port == old(self).peer_port,
                self.host_port == old(self).host_port,
                self.host_addr == old(self).host_addr,
                self.sequence == old(self).sequence,
                self.acknowledge == old(self).acknowledge,
                self.ip.peer == old(self).ip.peer,
                self.ip.tx == old(self).ip.tx,
                *buf == *old(buf),
            decreases rx0.len() - consumed,
        {
            match self.ip.read_datagram() {
                None => {
                    proof {
                        assert(consumed == rx0.len());
                        assert(self.ip.rx.deep_view().len() == 0);
                    }
                    return None;
                },
                Some(bytes) => {
                    proof {
                        assert(bytes@ == rx0[consumed]);
                    }
                    match TCP::from_bytes(&bytes) {
                        Some(segment) => {
                            let flags_ok = (segment.header.flags & (TCP_PSH | TCP_SYN | TCP_ACK))
                                == (TCP_PSH | TCP_ACK);
                            let ports_ok = segment.header.dst == self.host_port
                                && segment.header.src == self.peer_port;
                            if flags_ok && ports_ok {
                                proof {
                                    assert(data_seg(rx0[consumed], hp, pp));
                                    assert(first_data_seg(rx0, consumed, hp, pp) == consumed);
                                }
                                self.sequence = segment.header.ack_num;
                                let len_mod: u64 = (segment.data.len() as u64) % 0x1_0000_0000;
                                let sum: u64 = (segment.header.sequence as u64) + len_mod;
                                self.acknowledge = (sum % 0x1_0000_0000) as u32;
                                proof {
                                    lemma_wrap_add(
                                        segment.header.sequence as int,
                                        segment.data.len() as int,
                                    );
                                }
                                self.send_segment(TCP_ACK, Vec::new());
                                let mut i: usize = 0;
                                while i < buf.len() && i < segment.data.len()
                                    invariant
                                        i <= buf.len(),
                                        i <= segment.data.len(),
                                        buf.len() == old(buf).len(),
                                        buf@ == segment.data@.take(i as int) + old(buf)@.skip(
                                            i as int,
                                        ),
                                    decreases buf.len() - i,
                                {
                                    let b = segment.data[i];
                                    buf.set(i, b);
                                    i = i + 1;
                                    proof {
                                        assert(buf@ =~= segment.data@.take(i as int) + old(
                                            buf,
                                        )@.skip(i as int));
                                    }
                                }
                                proof {
                                    let t = parse_tcp(rx0[consumed]);
                                    let n = crate::resource::min_nat(
                                        old(buf).len() as int,
                                        t.data.len() as int,
                                    );
                                    assert(i == n);
                                    assert(self.ip.rx.deep_view() =~= rx0.skip(consumed + 1));
                                }
                                return Some(i);
                            }
                        },
                        None => {},
                    }
                    proof {
                        assert(!data_seg(rx0[consumed], hp, pp));
                        consumed = consumed + 1;
                        assert(rx0.skip(consumed - 1).skip(1) =~= rx0.skip(consumed));
                    }
                },
            }
        }
    }

    /// Send the whole buffer as one segment flagged PSH and ACK, then wait
    /// for this connection's next segment: a pure ACK confirms the write
    /// and carries the peer's counters; anything else of this connection
    /// fails it.  A drained transport fails it too.
    #[verifier::loop_isolation(false)]
    pub fn write(&mut self, buf: &Vec<u8>) -> (r: Option<usize>)
        requires
            buf.len() <= 0xFFDF,
        ensures
            final(self).peer_addr == old(self).peer_addr,
            final(self).peer_port == old(self).peer_port,
            final(self).host_port == old(self).host_port,
            final(self).host_addr == old(self).host_addr,
            final(self).ip.peer == old(self).ip.peer,
            ({
                let rx0 = old(self).ip.rx.deep_view();
                let hp = old(self).host_port;
                let pp = old(self).peer_port;
                let sent = built_segment(
                    old(self).host_addr,
                    old(self).peer_addr,
                    hp,
                    pp,
                    old(self).sequence,
                    old(self).acknowledge,
                    (TCP_PSH | TCP_ACK) as u16,
                    buf@,
                );
                let idx = first_port_seg(rx0, 0, hp, pp);
                &&& final(self).ip.tx.deep_view() == old(self).ip.tx.deep_view().push(sent)
                &&& (idx == rx0.len() ==> r is None && final(self).ip.rx.len() == 0 && final(self).sequence == old(self).sequence && final(self).acknowledge == old(self).acknowledge)
                &&& (idx < rx0.len() ==> ({
                    let t = parse_tcp(rx0[idx]);
                    &&& final(self).ip.rx.deep_view() == rx0.skip(idx + 1)
                    &&& (mask_of(t) == TCP_ACK ==> r == Some(buf.len()) && final(self).sequence
                        == t.header.ack_num && final(self).acknowledge == t.header.sequence)
                    &&& (mask_of(t) != TCP_ACK ==> r is None && final(self).sequence == old(self).sequence && final(self).acknowledge == old(self).acknowledge)
                }))
            }),
    {
        let payload = sub_bytes(buf, 0, buf.len());
        proof {
            assert(payload@ =~= buf@);
        }
        self.send_segment(TCP_PSH | TCP_ACK, payload);
        let ghost rx0 = self.ip.rx.deep_view();
        let ghost hp = self.host_port;
        let ghost pp = self.peer_port;
        let ghost mut consumed: int = 0;
        proof {
            assert(rx0.skip(0) =~= rx0);
        }
        loop
            invariant
                0 <= consumed <= rx0.len(),
                self.ip.rx.deep_view() == rx0.skip(consumed),
                first_port_seg(rx0, 0, hp, pp) == first_port_seg(rx0, consumed, hp, pp),
                self.peer_addr == old(self).peer_addr,
                self.peer_port == old(self).peer_port,
                self.host_port == old(self).host_port,
                self.host_addr == old(self).host_addr,
                self.sequence == old(self).sequence,
                self.acknowledge == old(self).acknowledge,
                self.ip.peer == old(self).ip.peer,
                self.ip.tx.deep_view() == old(self).ip.tx.deep_view().push(
                    built_segment(
                        old(self).host_addr,
                        old(self).peer_addr,
                        old(self).host_port,
                        old(self).peer_port,
                        old(self).sequence,
                        old(self).acknowledge,
                        (TCP_PSH | TCP_ACK) as u16,
                        buf@,
                    ),
                ),
            decreases rx0.len() - consumed,
        {
            match self.ip.read_datagram() {
                None => {
                    proof {
                        assert(consumed == rx0.len());
                    }
                    return None;
                },
                Some(bytes) => {
                    proof {
                        assert(bytes@ == rx0[consumed]);
                    }
                    match TCP::from_bytes(&bytes) {
                        Some(segment) => {
                            if segment.header.dst == self.host_port && segment.header.src
                                == self.peer_port {
                                proof {
                                    assert(port_seg(rx0[consumed], hp, pp));
                                    assert(first_port_seg(rx0, consumed, hp, pp) == consumed);
                                    assert(self.ip.rx.deep_view() =~= rx0.skip(consumed + 1));
                                }
                                if (segment.header.flags & (TCP_PSH | TCP_SYN | TCP_ACK))
                                    == TCP_ACK {
                                    self.sequence = segment.header.ack_num;
                                    self.acknowledge = segment.header.sequence;
                                    return Some(buf.len());
                                } else {
                                    return None;
                                }
                            }
                        },
                        None => {},
                    }
                    proof {
                        assert(!port_seg(rx0[consumed], hp, pp));
                        consumed = consumed + 1;
                        assert(rx0.skip(consumed - 1).skip(1) =~= rx0.skip(consumed));
                    }
                },
            }
        }
    }

    /// Open a connection as the client: send a SYN, wait for this
    /// connection's next segment, and on a SYN-ACK take the peer's
    /// counters, acknowledge one past its sequence, and confirm with a
    /// pure ACK.  Any other segment of this connection, or a drained
    /// transport, fails the handshake.
    #[verifier::loop_isolation(false)]
    pub fn client_establish(&mut self) -> (r: bool)
        ensures
            final(self).peer_addr == old(self).peer_addr,
            final(self).peer_port == old(self).peer_port,
            final(self).host_port == old(self).host_port,
            final(self).host_addr == old(self).host_addr,
            final(self).ip.peer == old(self).ip.peer,
            ({
                let rx0 = old(self).ip.rx.deep_view();
                let hp = old(self).host_port;
                let pp = old(self).peer_port;
                let syn = built_segment(
                    old(self).host_addr,
                    old(self).peer_addr,
                    hp,
                    pp,
                    old(self).sequence,
                    old(self).acknowledge,
                    TCP_SYN,
                    Seq::empty(),
                );
                let idx = first_port_seg(rx0, 0, hp, pp);
                &&& (idx == rx0.len() ==> !r && final(self).ip.rx.len() == 0 && final(self).ip.tx.deep_view() == old(self).ip.tx.deep_view().push(syn) && final(self).sequence == old(self).sequence && final(self).acknowledge == old(self).acknowledge)
                &&& (idx < rx0.len() ==> ({
                    let t = parse_tcp(rx0[idx]);
                    &&& final(self).ip.rx.deep_view() == rx0.skip(idx + 1)
                    &&& (mask_of(t) == (TCP_SYN | TCP_ACK) ==> ({
                        let newseq = t.header.ack_num;
                        let newack = wrap32(t.header.sequence + 1);
                        &&& r
                        &&& final(self).sequence == newseq
                        &&& final(self).acknowledge == newack
                        &&& final(self).ip.tx.deep_view() == old(self).ip.tx.deep_view().push(
                            syn,
                        ).push(
                            built_segment(
                                old(self).host_addr,
                                old(self).peer_addr,
                                hp,
                                pp,
                                newseq,
                                newack,
                                TCP_ACK,
                                Seq::empty(),
                            ),
                        )
                    }))
                    &&& (mask_of(t) != (TCP_SYN | TCP_ACK) ==> !r && final(self).sequence == old(self).sequence && final(self).acknowledge == old(self).acknowledge && final(self).ip.tx.deep_view() == old(self).ip.tx.deep_view().push(syn))
                }))
            }),
    {
        self.send_segment(TCP_SYN, Vec::new());
        let ghost rx0 = self.ip.rx.deep_view();
        let ghost hp = self.host_port;
        let ghost pp = self.peer_port;
        let ghost mut consumed: int = 0;
        proof {
            assert(rx0.skip(0) =~= rx0);
        }
        loop
            invariant
                0 <= consumed <= rx0.len(),
                self.ip.rx.deep_view() == rx0.skip(consumed),
                first_port_seg(rx0, 0, hp, pp) == first_port_seg(rx0, consumed, hp, pp),
                self.peer_addr == old(self).peer_addr,
                self.peer_port == old(self).peer_port,
                self.host_port == old(self).host_port,
                self.host_addr == old(self).host_addr,
                self.sequence == old(self).sequence,
                self.acknowledge == old(self).acknowledge,
                self.ip.peer == old(self).ip.peer,
                self.ip.tx.deep_view() == old(self).ip.tx.deep_view().push(
                    built_segment(
                        old(self).host_addr,
                        old(self).peer_addr,
                        old(self).host_port,
                        old(self).peer_port,
                        old(self).sequence,
                        old(self).acknowledge,
                        TCP_SYN,
                        Seq::empty(),
                    ),
                ),
            decreases rx0.len() - consumed,
        {
            match self.ip.read_datagram() {
                None => {
                    proof {
                        assert(consumed == rx0.len());
                    }
                    return false;
                },
                Some(bytes) => {
                    proof {
                        assert(bytes@ == rx0[consumed]);
                    }
                    match TCP::from_bytes(&bytes) {
                        Some(segment) => {
                            if segment.header.dst == self.host_port && segment.header.src
                                == self.peer_port {
                                proof {
                                    assert(port_seg(rx0[consumed], hp, pp));
                                    assert(first_port_seg(rx0, consumed, hp, pp) == consumed);
                                    assert(self.ip.rx.deep_view() =~= rx0.skip(consumed + 1));
                                }
                                if (segment.header.flags & (TCP_PSH | TCP_SYN | TCP_ACK)) == (
                                TCP_SYN | TCP_ACK) {
                                    self.sequence = segment.header.ack_num;
                                    let sum: u64 = (segment.header.sequence as u64) + 1;
                                    self.acknowledge = (sum % 0x1_0000_0000) as u32;
                                    proof {
                                        lemma_wrap_add(segment.header.sequence as int, 1);
                                    }
                                    self.send_segment(TCP_ACK, Vec::new());
                                    return true;
                                } else {
                                    return false;
                                }
                            }
                        },
                        None => {},
                    }
                    proof {
                        assert(!port_seg(rx0[consumed], hp, pp));
                        consumed = consumed + 1;
                        assert(rx0.skip(consumed - 1).skip(1) =~= rx0.skip(consumed));
                    }
                },
            }
        }
    }

    /// Answer a connection request as the server: acknowledge one past the
    /// received SYN, send a SYN-ACK, and wait for this connection's next
    /// segment; a pure ACK completes the handshake and carries the peer's
    /// counters.  Any other segment of this connection, or a drained
    /// transport, fails it.
    #[verifier::loop_isolation(false)]
    pub fn server_establish(&mut self, _syn: TCP) -> (r: bool)
        ensures
            final(self).peer_addr == old(self).peer_addr,
            final(self).peer_port == old(self).peer_port,
            final(self).host_port == old(self).host_port,
            final(self).host_addr == old(self).host_addr,
            final(self).ip.peer == old(self).ip.peer,
            ({
                let rx0 = old(self).ip.rx.deep_view();
                let hp = old(self).host_port;
                let pp = old(self).peer_port;
                let ack1 = wrap32(old(self).acknowledge + 1);
                let synack = built_segment(
                    old(self).host_addr,
                    old(self).peer_addr,
                    hp,
                    pp,
                    old(self).sequence,
                    ack1,
                    (TCP_SYN | TCP_ACK) as u16,
                    Seq::empty(),
                );
                let idx = first_port_seg(rx0, 0, hp, pp);
                &&& final(self).ip.tx.deep_view() == old(self).ip.tx.deep_view().push(synack)
                &&& (idx == rx0.len() ==> !r && final(self).ip.rx.len() == 0 && final(self).sequence == old(self).sequence && final(self).acknowledge == ack1)
                &&& (idx < rx0.len() ==> ({
                    let t = parse_tcp(rx0[idx]);
                    &&& final(self).ip.rx.deep_view() == rx0.skip(idx + 1)
                    &&& (mask_of(t) == TCP_ACK ==> r && final(self).sequence == t.header.ack_num
                        && final(self).acknowledge == t.header.sequence)
                    &&& (mask_of(t) != TCP_ACK ==> !r && final(self).sequence == old(self).sequence
                        && final(self).acknowledge == ack1)
                }))
            }),
    {
        let sum: u64 = (self.acknowledge as u64) + 1;
        self.acknowledge = (sum % 0x1_0000_0000) as u32;
        proof {
            lemma_wrap_add(old(self).acknowledge as int, 1);
        }
        self.send_segment(TCP_SYN | TCP_ACK, Vec::new());
        let ghost rx0 = self.ip.rx.deep_view();
        let ghost hp = self.host_port;
        let ghost pp = self.peer_port;
        let ghost ack1 = self.acknowledge;
        let ghost mut consumed: int = 0;
        proof {
            assert(rx0.skip(0) =~= rx0);
        }
        loop
            invariant
                0 <= consumed <= rx0.len(),
                self.ip.rx.deep_view() == rx0.skip(consumed),
                first_port_seg(rx0, 0, hp, pp) == first_port_seg(rx0, consumed, hp, pp),
                self.peer_addr == old(self).peer_addr,
                self.peer_port == old(self).peer_port,
                self.host_port == old(self).host_port,
                self.host_addr == old(self).host_addr,
                self.sequence == old(self).sequence,
                self.acknowledge == ack1,
                ack1 == wrap32(old(self).acknowledge + 1),
                self.ip.peer == old(self).ip.peer,
                self.ip.tx.deep_view() == old(self).ip.tx.deep_view().push(
                    built_segment(
                        old(self).host_addr,
                        old(self).peer_addr,
                        old(self).host_port,
                        old(self).peer_port,
                        old(self).sequence,
                        wrap32(old(self).acknowledge + 1),
                        (TCP_SYN | TCP_ACK) as u16,
                        Seq::empty(),
                    ),
                ),
            decreases rx0.len() - consumed,
        {
            match self.ip.read_datagram() {
                None => {
                    proof {
                        assert(consumed == rx0.len());
                    }
                    return false;
                },
                Some(bytes) => {
                    proof {
                        assert(bytes@ == rx0[consumed]);
                    }
                    match TCP::from_bytes(&bytes) {
                        Some(segment) => {
                            if segment.header.dst == self.host_port && segment.header.src
                                == self.peer_port {
                                proof {
                                    assert(port_seg(rx0[consumed], hp, pp));
                                    assert(first_port_seg(rx0, consumed, hp, pp) == consumed);
                                    assert(self.ip.rx.deep_view() =~= rx0.skip(consumed + 1));
                                }
                                if (segment.header.flags & (TCP_PSH | TCP_SYN | TCP_ACK))
                                    == TCP_ACK {
                                    self.sequence = segment.header.ack_num;
                                    self.acknowledge = segment.header.sequence;
                                    return true;
                                } else {
                                    return false;
                                }
                            }
                        },
                        None => {},
                    }
                    proof {
                        assert(!port_seg(rx0[consumed], hp, pp));
                        consumed = consumed + 1;
                        assert(rx0.skip(consumed - 1).skip(1) =~= rx0.skip(consumed));
                    }
                },
            }
        }
    }

    /// Release the connection: send a single FIN-ACK, without waiting for
    /// an answer.  Callers release every connection this way on every exit
    /// path, whatever state it reached.
    pub fn close(&mut self)
        ensures
            final(self).peer_addr == old(self).peer_addr,
            final(self).peer_port == old(self).peer_port,
            final(self).host_port == old(self).host_port,
            final(self).host_addr == old(self).host_addr,
            final(self).sequence == old(self).sequence,
            final(self).acknowledge == old(self).acknowledge,
            final(self).ip.peer == old(self).ip.peer,
            final(self).ip.rx == old(self).ip.rx,
            final(self).ip.tx.deep_view() == old(self).ip.tx.deep_view().push(
                built_segment(
                    old(self).host_addr,
                    old(self).peer_addr,
                    old(self).host_port,
                    old(self).peer_port,
                    old(self).sequence,
                    old(self).acknowledge,
                    (TCP_FIN | TCP_ACK) as u16,
                    Seq::empty(),
                ),
            ),
    {
        self.send_segment(TCP_FIN | TCP_ACK, Vec::new());
    }

    /// An independent handle on the same connection state.
    pub fn dup(&self) -> (r: Option<Resource>)
        ensures
            r matches Some(d) && d.ip.peer == self.ip.peer && d.ip.rx.deep_view()
                == self.ip.rx.deep_view() && d.ip.tx.deep_view() == self.ip.tx.deep_view()
                && d.peer_addr == self.peer_addr && d.peer_port == self.peer_port && d.host_port
                == self.host_port && d.sequence == self.sequence && d.acknowledge
                == self.acknowledge && d.host_addr == self.host_addr,
    {
        Some(
            Resource {
                ip: self.ip.dup(),
                peer_addr: self.peer_addr,
                peer_port: self.peer_port,
                host_port: self.host_port,
                sequence: self.sequence,
                acknowledge: self.acknowledge,
                host_addr: self.host_addr,
            },
        )
    }

    /// A TCP endpoint has no cursor to move.
    pub fn seek(&mut self, pos: crate::resource::ResourceSeek) -> (r: Option<usize>)
        ensures
            r is None,
            *final(self) == *old(self),
    {
        None
    }

    /// Sync the underlying transport.
    pub fn sync(&mut self) -> (r: bool)
        ensures
            *final(self) == *old(self),
            r == true,
    {
        self.ip.sync()
    }

    /// The URL this resource answers to:
    /// `tcp://<peer address>:<peer port>/<host port>`.
    pub fn path(&self) -> (r: Option<Vec<u8>>)
        ensures
            r matches Some(v) && v@ == "tcp://"@.map_values(|c: char| c as u8) + dec_bytes(
                self.peer_addr.o0 as int,
            ) + seq!['.' as u8] + dec_bytes(self.peer_addr.o1 as int) + seq!['.' as u8] + dec_bytes(
                self.peer_addr.o2 as int,
            ) + seq!['.' as u8] + dec_bytes(self.peer_addr.o3 as int) + seq![':' as u8] + dec_bytes(
                self.peer_port as int,
            ) + seq!['/' as u8] + dec_bytes(self.host_port as int),
    {
        let mut v: Vec<u8> = Vec::new();
        v.push('t' as u8);
        v.push('c' as u8);
        v.push('p' as u8);
        v.push(':' as u8);
        v.push('/' as u8);
        v.push('/' as u8);
        proof {
            reveal_strlit("tcp://");
            assert(v@ =~= "tcp://"@.map_values(|c: char| c as u8));
        }
        push_decimal(&mut v, self.peer_addr.o0 as u16);
        v.push('.' as u8);
        push_decimal(&mut v, self.peer_addr.o1 as u16);
        v.push('.' as u8);
        push_decimal(&mut v, self.peer_addr.o2 as u16);
        v.push('.' as u8);
        push_decimal(&mut v, self.peer_addr.o3 as u16);
        v.push(':' as u8);
        push_decimal(&mut v, self.peer_port);
        v.push('/' as u8);
        push_decimal(&mut v, self.host_port);
        proof {
            assert(v@ =~= "tcp://"@.map_values(|c: char| c as u8) + dec_bytes(
                self.peer_addr.o0 as int,
            ) + seq!['.' as u8] + dec_bytes(self.peer_addr.o1 as int) + seq!['.' as u8] + dec_bytes(
                self.peer_addr.o2 as int,
            ) + seq!['.' as u8] + dec_bytes(self.peer_addr.o3 as int) + seq![':' as u8] + dec_bytes(
                self.peer_port as int,
            ) + seq!['/' as u8] + dec_bytes(self.host_port as int));
        }
        Some(v)
    }
}

/// What a TCP URL asked for: an active open towards a host and port, or a
/// passive open listening on a local port.
pub enum TcpOpen {
    Active { host: Ipv4Addr, port: u16 },
    Passive { local_port: u16 },
}

/// The TCP scheme: it opens connections over raw-IP transports.  The
/// host's own address, used in every checksum, is fixed at construction.
pub struct Scheme {
    pub host_addr: Ipv4Addr,
}

impl Scheme {
    pub fn new(host_addr: Ipv4Addr) -> (r: Box<Scheme>)
        ensures
            r.host_addr == host_addr,
    {
        Box::new(Scheme { host_addr })
    }

    /// Open a connection over the given transport.  An active open draws
    /// an ephemeral port from `port_entropy` and a starting sequence from
    /// `seq_entropy` and runs the client handshake.  A passive open scans
    /// for a connection request to the local port, then runs the server
    /// handshake against it; its peer address is the transport's.  A
    /// failed handshake, or a transport drained first, yields nothing.
    #[verifier::loop_isolation(false)]
    #[verifier::rlimit(50)]
    pub fn open(&mut self, target: TcpOpen, ip: IpLink, seq_entropy: u32, port_entropy: u32) -> (r:
        Option<Resource>)
        ensures
            ({
                let rx0 = ip.rx.deep_view();
                &&& (target matches TcpOpen::Active { host, port } ==> ({
                    let hp = (32768 + port_entropy % 32768) as u16;
                    let syn = built_segment(
                        old(self).host_addr,
                        host,
                        hp,
                        port,
                        seq_entropy,
                        0,
                        TCP_SYN,
                        Seq::empty(),
                    );
                    let idx = first_port_seg(rx0, 0, hp, port);
                    &&& (idx == rx0.len() ==> r is None)
                    &&& (idx < rx0.len() ==> ({
                        let t = parse_tcp(rx0[idx]);
                        &&& (mask_of(t) == (TCP_SYN | TCP_ACK) ==> (r matches Some(c) && c.peer_addr
                            == host && c.peer_port == port && c.host_port == hp && c.sequence
                            == t.header.ack_num && c.acknowledge == wrap32(t.header.sequence + 1)
                            && c.host_addr == old(self).host_addr && c.ip.peer == ip.peer
                            && c.ip.rx.deep_view() == rx0.skip(idx + 1) && c.ip.tx.deep_view()
                            == ip.tx.deep_view().push(syn).push(
                            built_segment(
                                old(self).host_addr,
                                host,
                                hp,
                                port,
                                t.header.ack_num,
                                wrap32(t.header.sequence + 1),
                                TCP_ACK,
                                Seq::empty(),
                            ),
                        )))
                        &&& (mask_of(t) != (TCP_SYN | TCP_ACK) ==> r is None)
                    }))
                }))
                &&& (target matches TcpOpen::Passive { local_port } ==> ({
                    let sidx = first_syn_seg(rx0, 0, local_port);
                    &&& (sidx == rx0.len() ==> r is None)
                    &&& (sidx < rx0.len() ==> ({
                        let s = parse_tcp(rx0[sidx]);
                        let pp = s.header.src;
                        let rx1 = rx0.skip(sidx + 1);
                        let ack1 = wrap32(s.header.sequence + 1);
                        let synack = built_segment(
                            old(self).host_addr,
                            ip.peer,
                            local_port,
                            pp,
                            seq_entropy,
                            ack1,
                            (TCP_SYN | TCP_ACK) as u16,
                            Seq::empty(),
                        );
                        let pidx = first_port_seg(rx1, 0, local_port, pp);
                        &&& (pidx == rx1.len() ==> r is None)
                        &&& (pidx < rx1.len() ==> ({
                            let t = parse_tcp(rx1[pidx]);
                            &&& (mask_of(t) == TCP_ACK ==> (r matches Some(c) && c.peer_addr
                                == ip.peer && c.peer_port == pp && c.host_port == local_port
                                && c.sequence == t.header.ack_num && c.acknowledge
                                == t.header.sequence && c.host_addr == old(self).host_addr && c.ip.peer
                                == ip.peer && c.ip.rx.deep_view() == rx1.skip(pidx + 1)
                                && c.ip.tx.deep_view() == ip.tx.deep_view().push(synack)))
                            &&& (mask_of(t) != TCP_ACK ==> r is None)
                        }))
                    }))
                }))
            }),
    {
        match target {
            TcpOpen::Active { host, port } => {
                let host_port: u16 = (32768 + (port_entropy % 32768)) as u16;
                let mut conn = Resource {
                    ip,
                    peer_addr: host,
                    peer_port: port,
                    host_port,
                    sequence: seq_entropy,
                    acknowledge: 0,
                    host_addr: self.host_addr,
                };
                if conn.client_establish() {
                    Some(conn)
                } else {
                    None
                }
            },
            TcpOpen::Passive { local_port } => {
                let mut link = ip;
                let ghost rx0 = link.rx.deep_view();
                let ghost peer0 = link.peer;
                let ghost tx0 = link.tx;
                let ghost mut consumed: int = 0;
                proof {
                    assert(rx0.skip(0) =~= rx0);
                }
                loop
                    invariant
                        0 <= consumed <= rx0.len(),
                        link.rx.deep_view() == rx0.skip(consumed),
                        first_syn_seg(rx0, 0, local_port) == first_syn_seg(
                            rx0,
                            consumed,
                            local_port,
                        ),
                        link.peer == peer0,
                        link.tx == tx0,
                    decreases rx0.len() - consumed,
                {
                    match link.read_datagram() {
                        None => {
                            proof {
                                assert(consumed == rx0.len());
                            }
                            return None;
                        },
                        Some(bytes) => {
                            proof {
                                assert(bytes@ == rx0[consumed]);
                            }
                            match TCP::from_bytes(&bytes) {
                                Some(segment) => {
                                    if segment.header.dst == local_port && (segment.header.flags & (
                                    TCP_PSH | TCP_SYN | TCP_ACK)) == TCP_SYN {
                                        proof {
                                            assert(syn_seg(rx0[consumed], local_port));
                                            assert(first_syn_seg(rx0, consumed, local_port)
                                                == consumed);
                                            assert(link.rx.deep_view() =~= rx0.skip(consumed + 1));
                                        }
                                        let peer_port = segment.header.src;
                                        let ack0 = segment.header.sequence;
                                        let peer_addr = link.peer;
                                        let mut conn = Resource {
                                            ip: link,
                                            peer_addr,
                                            peer_port,
                                            host_port: local_port,
                                            sequence: seq_entropy,
                                            acknowledge: ack0,
                                            host_addr: self.host_addr,
                                        };
                                        if conn.server_establish(segment) {
                                            return Some(conn);
                                        } else {
                                            return None;
                                        }
                                    }
                                },
                                None => {},
                            }
                            proof {
                                assert(!syn_seg(rx0[consumed], local_port));
                                consumed = consumed + 1;
                                assert(rx0.skip(consumed - 1).skip(1) =~= rx0.skip(consumed));
                            }
                        },
                    }
                }
            },
        }
    }
}

/// Adding before or after reducing modulo `2^32` lands on the same word.
proof fn lemma_wrap_add(a: int, b: int)
    by (nonlinear_arith)
    requires
        a >= 0,
        b >= 0,
    ensures
        (a + b % 0x1_0000_0000) % 0x1_0000_0000 == (a + b) % 0x1_0000_0000,
{
}

/// The decimal digits of a number, most significant first.
pub open spec fn dec_bytes(x: int) -> Seq<u8>
    decreases x,
{
    if x < 10 {
        seq![('0' as u8 + x) as u8]
    } else {
        dec_bytes(x / 10) + seq![('0' as u8 + x % 10) as u8]
    }
}

/// Append the decimal digits of `x`.
fn push_decimal(out: &mut Vec<u8>, x: u16)
    ensures
        final(out)@ == old(out)@ + dec_bytes(x as int),
    decreases x,
{
    if x >= 10 {
        push_decimal(out, x / 10);
        out.push('0' as u8 + (x % 10) as u8);
        proof {
            assert(final(out)@ =~= old(out)@ + dec_bytes(x as int));
        }
    } else {
        out.push('0' as u8 + (x % 10) as u8);
        proof {
            assert((x % 10) == x);
            assert(final(out)@ =~= old(out)@ + dec_bytes(x as int));
        }
    }
}

} // verus!
