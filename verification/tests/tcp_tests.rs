use scheme_io::tcp::{
    compute_checksum, Ipv4Addr, TCPHeader, TCP, TCP_ACK, TCP_FIN, TCP_PSH, TCP_RST, TCP_SYN,
};
use scheme_io::tcp_conn::{IpLink, Resource, Scheme, TcpOpen};

const HOST: Ipv4Addr = Ipv4Addr { o0: 10, o1: 0, o2: 0, o3: 1 };
const PEER: Ipv4Addr = Ipv4Addr { o0: 10, o1: 0, o2: 0, o3: 2 };

/// A segment as the peer would send it: `src` is the peer's port.
fn peer_segment(src: u16, dst: u16, sequence: u32, ack_num: u32, flags: u16, data: &[u8]) -> Vec<u8> {
    let t = TCP {
        header: TCPHeader {
            src,
            dst,
            sequence,
            ack_num,
            flags: 0x5000 | flags,
            window_size: 65535,
            checksum: 0,
            urgent_pointer: 0,
        },
        options: Vec::new(),
        data: data.to_vec(),
    };
    t.to_bytes()
}

fn connection(rx: Vec<Vec<u8>>) -> Resource {
    Resource {
        ip: IpLink::new(PEER, rx),
        peer_addr: PEER,
        peer_port: 80,
        host_port: 40000,
        sequence: 500,
        acknowledge: 0,
        host_addr: HOST,
    }
}

/// The pseudo-header and segment bytes over which a receiver verifies the
/// checksum; a correctly checksummed segment sums to zero.
fn verify_checksum(src: Ipv4Addr, dst: Ipv4Addr, segment: &[u8]) -> u16 {
    let mut b = vec![src.o0, src.o1, src.o2, src.o3, dst.o0, dst.o1, dst.o2, dst.o3, 0, 6];
    b.extend_from_slice(&(segment.len() as u16).to_be_bytes());
    b.extend_from_slice(segment);
    compute_checksum(&b)
}

#[test]
fn codec_round_trip_preserves_the_segment() {
    let bytes = peer_segment(80, 40000, 7, 9, TCP_PSH | TCP_ACK, b"payload");
    let t = TCP::from_bytes(&bytes).unwrap();
    assert_eq!(t.header.src, 80);
    assert_eq!(t.header.dst, 40000);
    assert_eq!(t.header.sequence, 7);
    assert_eq!(t.header.ack_num, 9);
    assert_eq!(t.header.flags, 0x5000 | TCP_PSH | TCP_ACK);
    assert_eq!(t.header.window_size, 65535);
    assert_eq!(t.header.urgent_pointer, 0);
    assert_eq!(t.options, Vec::<u8>::new());
    assert_eq!(t.data, b"payload".to_vec());
    assert_eq!(t.to_bytes(), bytes);
}

#[test]
fn codec_parses_options() {
    // Header length 24: four option bytes between header and payload.
    let mut bytes = peer_segment(1, 2, 0, 0, 0, b"");
    let t0 = TCP::from_bytes(&bytes).unwrap();
    let mut with_opts = TCP {
        header: TCPHeader { flags: 0x6000, ..t0.header },
        options: vec![1, 2, 3, 4],
        data: b"xy".to_vec(),
    };
    with_opts.header.checksum = 0;
    bytes = with_opts.to_bytes();
    let t = TCP::from_bytes(&bytes).unwrap();
    assert_eq!(t.options, vec![1, 2, 3, 4]);
    assert_eq!(t.data, b"xy".to_vec());
}

#[test]
fn codec_rejects_short_and_malformed_input() {
    assert!(TCP::from_bytes(&vec![0u8; 19]).is_none());
    // Header length nibble of zero is below the fixed header: malformed.
    let mut bytes = peer_segment(1, 2, 0, 0, 0, b"");
    bytes[12] = 0;
    assert!(TCP::from_bytes(&bytes).is_none());
    // Header length pointing past the datagram is malformed.
    let mut bytes = peer_segment(1, 2, 0, 0, 0, b"");
    bytes[12] = 0xF0;
    assert!(TCP::from_bytes(&bytes).is_none());
}

#[test]
fn header_length_nibble_round_trips() {
    for k in [0u16, 4, 8, 12, 16, 20, 24, 28, 32, 36, 40] {
        let hb = 20 + k;
        assert_eq!(((hb << 10) & 0xF000) >> 10, hb);
    }
}

#[test]
fn client_handshake() {
    // Our SYN goes out with seq X = 500; the peer answers SYN|ACK with
    // seq 1000 and ack X + 1.
    let synack = peer_segment(80, 40000, 1000, 501, TCP_SYN | TCP_ACK, b"");
    let mut c = connection(vec![synack]);
    assert!(c.client_establish());
    assert_eq!(c.sequence, 501);
    assert_eq!(c.acknowledge, 1001);
    // A SYN, then a pure ACK.
    assert_eq!(c.ip.tx.len(), 2);
    let syn = TCP::from_bytes(&c.ip.tx[0]).unwrap();
    assert_eq!(syn.header.flags & 0x3F, TCP_SYN);
    assert_eq!(syn.header.sequence, 500);
    let ack = TCP::from_bytes(&c.ip.tx[1]).unwrap();
    assert_eq!(ack.header.flags & 0x3F, TCP_ACK);
    assert_eq!(ack.header.sequence, 501);
    assert_eq!(ack.header.ack_num, 1001);
}

#[test]
fn client_handshake_skips_unrelated_segments() {
    let noise = peer_segment(9999, 40000, 0, 0, TCP_ACK, b"");
    let garbage = vec![1u8, 2, 3];
    let synack = peer_segment(80, 40000, 1000, 501, TCP_SYN | TCP_ACK, b"");
    let mut c = connection(vec![garbage, noise, synack]);
    assert!(c.client_establish());
    assert_eq!(c.acknowledge, 1001);
}

#[test]
fn client_handshake_fails_on_wrong_flags() {
    let rst = peer_segment(80, 40000, 1000, 501, TCP_RST | TCP_ACK, b"");
    let mut c = connection(vec![rst]);
    assert!(!c.client_establish());
}

#[test]
fn client_handshake_fails_on_closed_transport() {
    let mut c = connection(vec![]);
    assert!(!c.client_establish());
}

#[test]
fn read_truncates_but_acknowledges_whole_payload() {
    let payload = [5u8; 100];
    let seg = peer_segment(80, 40000, 2000, 600, TCP_PSH | TCP_ACK, &payload);
    let mut c = connection(vec![seg]);
    c.sequence = 600;
    c.acknowledge = 2000;
    let mut buf = vec![0u8; 50];
    let n = c.read(&mut buf).unwrap();
    assert_eq!(n, 50);
    assert_eq!(buf, vec![5u8; 50]);
    // The whole hundred bytes were acknowledged; the rest are lost.
    assert_eq!(c.acknowledge, 2100);
    assert_eq!(c.sequence, 600);
    // A pure ACK went out.
    assert_eq!(c.ip.tx.len(), 1);
    let ack = TCP::from_bytes(&c.ip.tx[0]).unwrap();
    assert_eq!(ack.header.flags & 0x3F, TCP_ACK);
    assert_eq!(ack.header.ack_num, 2100);
}

#[test]
fn read_on_closed_transport_fails() {
    let mut c = connection(vec![]);
    let mut buf = vec![0u8; 8];
    assert!(c.read(&mut buf).is_none());
}

#[test]
fn write_waits_for_the_ack() {
    let ack = peer_segment(80, 40000, 3000, 700, TCP_ACK, b"");
    let mut c = connection(vec![ack]);
    c.sequence = 650;
    c.acknowledge = 2500;
    let n = c.write(&b"hello".to_vec()).unwrap();
    assert_eq!(n, 5);
    assert_eq!(c.sequence, 700);
    assert_eq!(c.acknowledge, 3000);
    let sent = TCP::from_bytes(&c.ip.tx[0]).unwrap();
    assert_eq!(sent.header.flags & 0x3F, TCP_PSH | TCP_ACK);
    assert_eq!(sent.data, b"hello".to_vec());
    assert_eq!(sent.header.sequence, 650);
}

#[test]
fn write_fails_on_unexpected_flags() {
    let syn = peer_segment(80, 40000, 3000, 700, TCP_SYN, b"");
    let mut c = connection(vec![syn]);
    assert!(c.write(&b"hello".to_vec()).is_none());
}

#[test]
fn drop_emits_exactly_one_fin_ack() {
    let mut c = connection(vec![]);
    c.sequence = 800;
    c.acknowledge = 900;
    c.close();
    assert_eq!(c.ip.tx.len(), 1);
    let fin = TCP::from_bytes(&c.ip.tx[0]).unwrap();
    assert_eq!(fin.header.flags & 0x3F, TCP_FIN | TCP_ACK);
    assert_eq!(fin.header.sequence, 800);
    assert_eq!(fin.header.ack_num, 900);
    // The pseudo-header checksum verifies: summing the sent segment with
    // its checksum in place folds to zero.
    assert_eq!(verify_checksum(HOST, PEER, &c.ip.tx[0]), 0);
}

#[test]
fn sent_segments_carry_valid_checksums() {
    let synack = peer_segment(80, 40000, 1000, 501, TCP_SYN | TCP_ACK, b"");
    let mut c = connection(vec![synack]);
    c.client_establish();
    for seg in &c.ip.tx {
        assert_eq!(verify_checksum(HOST, PEER, seg), 0);
    }
    let ack = peer_segment(80, 40000, 1001, 501, TCP_ACK, b"");
    c.ip.rx.push(ack);
    c.write(&b"data!".to_vec()).unwrap();
    for seg in &c.ip.tx {
        assert_eq!(verify_checksum(HOST, PEER, seg), 0);
    }
}

#[test]
fn server_handshake() {
    // The peer's SYN carried sequence 4000 (acknowledge is set from it at
    // construction); its final ACK confirms with ack 43.
    let syn_bytes = peer_segment(80, 40000, 4000, 0, TCP_SYN, b"");
    let syn = TCP::from_bytes(&syn_bytes).unwrap();
    let ack = peer_segment(80, 40000, 4001, 43, TCP_ACK, b"");
    let mut c = connection(vec![ack]);
    c.sequence = 42;
    c.acknowledge = 4000;
    assert!(c.server_establish(syn));
    assert_eq!(c.sequence, 43);
    assert_eq!(c.acknowledge, 4001);
    let synack = TCP::from_bytes(&c.ip.tx[0]).unwrap();
    assert_eq!(synack.header.flags & 0x3F, TCP_SYN | TCP_ACK);
    assert_eq!(synack.header.ack_num, 4001);
}

#[test]
fn scheme_active_open() {
    let port_entropy = 7777u32;
    let hp = (32768 + port_entropy % 32768) as u16;
    let synack = peer_segment(80, hp, 1000, 124, TCP_SYN | TCP_ACK, b"");
    let link = IpLink::new(PEER, vec![synack]);
    let mut scheme = Scheme::new(HOST);
    let c = scheme
        .open(TcpOpen::Active { host: PEER, port: 80 }, link, 123, port_entropy)
        .expect("handshake should succeed");
    assert_eq!(c.host_port, hp);
    assert_eq!(c.peer_port, 80);
    assert_eq!(c.sequence, 124);
    assert_eq!(c.acknowledge, 1001);
}

#[test]
fn scheme_active_open_fails_without_answer() {
    let link = IpLink::new(PEER, vec![]);
    let mut scheme = Scheme::new(HOST);
    assert!(scheme.open(TcpOpen::Active { host: PEER, port: 80 }, link, 123, 7777).is_none());
}

#[test]
fn scheme_passive_open() {
    let syn = peer_segment(5555, 80, 9000, 0, TCP_SYN, b"");
    let ack = peer_segment(5555, 80, 9001, 32, TCP_ACK, b"");
    let noise = peer_segment(5555, 81, 0, 0, TCP_SYN, b"");
    let link = IpLink::new(PEER, vec![noise, syn, ack]);
    let mut scheme = Scheme::new(HOST);
    let c = scheme
        .open(TcpOpen::Passive { local_port: 80 }, link, 31, 0)
        .expect("handshake should succeed");
    assert_eq!(c.peer_port, 5555);
    assert_eq!(c.host_port, 80);
    assert_eq!(c.sequence, 32);
    assert_eq!(c.acknowledge, 9001);
    assert_eq!(c.peer_addr, PEER);
}

#[test]
fn tcp_dup_copies_the_connection() {
    let c = connection(vec![peer_segment(80, 40000, 0, 0, TCP_ACK, b"")]);
    let d = c.dup().unwrap();
    assert_eq!(d.peer_port, c.peer_port);
    assert_eq!(d.host_port, c.host_port);
    assert_eq!(d.sequence, c.sequence);
    assert_eq!(d.ip.rx, c.ip.rx);
}

#[test]
fn tcp_seek_is_refused() {
    let mut c = connection(vec![]);
    assert!(c.seek(scheme_io::resource::ResourceSeek::Start(0)).is_none());
}

#[test]
fn tcp_sync_succeeds() {
    let mut c = connection(vec![]);
    assert!(c.sync());
}

#[test]
fn tcp_path_spells_the_connection() {
    let c = connection(vec![]);
    assert_eq!(c.path().unwrap(), b"tcp://10.0.0.2:80/40000".to_vec());
}

#[test]
fn read_acknowledgement_wraps_around() {
    let seg = peer_segment(80, 40000, 0xFFFF_FFFF, 600, TCP_PSH | TCP_ACK, b"ab");
    let mut c = connection(vec![seg]);
    let mut buf = vec![0u8; 8];
    assert_eq!(c.read(&mut buf).unwrap(), 2);
    assert_eq!(c.acknowledge, 1);
}
