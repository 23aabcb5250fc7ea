use vstd::prelude::*;

use crate::disk::Disk;
use crate::encoding::{
    get_le32, get_le64, le32_at, le64_at, le64_bytes, lemma_bytes_deep_view, put_le64, sub_bytes,
    zeros,
};
use crate::extent::{Extent, SECTOR_SIZE};

verus! {

/// Bytes of one on-disk record: header and node records are one sector each.
pub const RECORD_SIZE: usize = 512;

/// The filesystem header, parsed from block 1: a signature, a version, a
/// volume label, and the extents of the node-table regions.
pub struct Header {
    pub signature: Vec<u8>,
    pub version: u32,
    pub name: Vec<u8>,
    pub extents: Vec<Extent>,
}

/// A node record as laid out on disk: a NUL-padded path and the file's data
/// extents.
pub struct NodeData {
    pub name: Vec<u8>,
    pub extents: Vec<Extent>,
}

/// An in-memory file node: the absolute block of its record (kept for
/// rewrite), the path from the volume root, and the data extents in order.
#[derive(Clone)]
pub struct Node {
    pub block: u64,
    pub name: Vec<u8>,
    pub extents: Vec<Extent>,
}

/// The extent stored at byte offset `off`: two little-endian 64-bit words,
/// start block then byte length.
pub open spec fn extent_at(s: Seq<u8>, off: int) -> Extent {
    Extent { block: le64_at(s, off) as u64, length: le64_at(s, off + 8) as u64 }
}

/// The 16 extent slots stored at byte offset `off`.
pub open spec fn extents_at(s: Seq<u8>, off: int) -> Seq<Extent> {
    Seq::new(16, |i: int| extent_at(s, off + 16 * i))
}

/// The signature bytes every volume must carry.
pub open spec fn signature_ok(s: Seq<u8>) -> bool {
    &&& s[0] == 'R' as u8
    &&& s[1] == 'E' as u8
    &&& s[2] == 'D' as u8
    &&& s[3] == 'O' as u8
    &&& s[4] == 'X' as u8
    &&& s[5] == 'F' as u8
    &&& s[6] == 'S' as u8
    &&& s[7] == 0
}

/// A 512-byte header image with the right signature and version.
pub open spec fn header_valid(s: Seq<u8>) -> bool {
    &&& s.len() == RECORD_SIZE
    &&& signature_ok(s)
    &&& le32_at(s, 8) == 0xFFFF_FFFF
}

/// Index of the first occurrence of `b` in `s` at or after `from`, or
/// `s.len()` when there is none.
pub open spec fn first_index(s: Seq<u8>, from: int, b: u8) -> int
    decreases s.len() - from,
{
    if from < 0 || from >= s.len() {
        s.len() as int
    } else if s[from] == b {
        from
    } else {
        first_index(s, from + 1, b)
    }
}

/// A name field truncated at its first NUL.
pub open spec fn nul_name(s: Seq<u8>) -> Seq<u8> {
    s.take(first_index(s, 0, 0))
}

/// Walking past positions that do not hold `b` lands `first_index` on the
/// first position that does.
pub proof fn lemma_first_index(s: Seq<u8>, from: int, i: int, b: u8)
    requires
        0 <= from <= i <= s.len(),
        forall|k: int| from <= k < i ==> s[k] != b,
        i == s.len() || s[i] == b,
    ensures
        first_index(s, from, b) == i,
    decreases i - from,
{
    if from < i {
        lemma_first_index(s, from + 1, i, b);
    }
}

/// Find the first occurrence of `b` in `v` at or after `from`.
pub fn find_byte(v: &Vec<u8>, from: usize, b: u8) -> (r: usize)
    requires
        from <= v.len(),
    ensures
        r == first_index(v@, from as int, b),
        from <= r <= v.len(),
        r < v.len() ==> v@[r as int] == b,
        forall|k: int| from <= k < r ==> v@[k] != b,
{
    let mut i: usize = from;
    while i < v.len()
        invariant
            from <= i <= v.len(),
            forall|k: int| from <= k < i ==> v@[k] != b,
        decreases v.len() - i,
    {
        if v[i] == b {
            proof {
                lemma_first_index(v@, from as int, i as int, b);
            }
            return i;
        }
        i = i + 1;
    }
    proof {
        lemma_first_index(v@, from as int, v.len() as int, b);
    }
    v.len()
}

/// Exact byte equality of two buffers.
pub fn bytes_eq(a: &Vec<u8>, b: &Vec<u8>) -> (r: bool)
    ensures
        r == (a@ == b@),
{
    if a.len() != b.len() {
        proof {
            assert(a@ != b@);
        }
        return false;
    }
    let mut i: usize = 0;
    while i < a.len()
        invariant
            i <= a.len(),
            a.len() == b.len(),
            forall|k: int| 0 <= k < i ==> a@[k] == b@[k],
        decreases a.len() - i,
    {
        if a[i] != b[i] {
            return false;
        }
        i = i + 1;
    }
    proof {
        assert(a@ =~= b@);
    }
    true
}

/// Read the 16 extent slots stored at `off`.
fn read_extents(b: &Vec<u8>, off: usize) -> (r: Vec<Extent>)
    requires
        off + 16 * 16 <= b.len(),
    ensures
        r@ == extents_at(b@, off as int),
{
    let mut r: Vec<Extent> = Vec::new();
    let mut i: usize = 0;
    while i < 16
        invariant
            i <= 16,
            off + 16 * 16 <= b.len(),
            r.len() == i,
            forall|k: int| 0 <= k < i ==> r@[k] == extent_at(b@, off + 16 * k),
        decreases 16 - i,
    {
        let block = get_le64(b, off + 16 * i);
        let length = get_le64(b, off + 16 * i + 8);
        r.push(Extent { block, length });
        i = i + 1;
    }
    proof {
        assert(r@ =~= extents_at(b@, off as int));
    }
    r
}

impl Header {
    /// The header this 512-byte image holds, when its signature and version
    /// are right.
    pub fn from_bytes(b: &Vec<u8>) -> (r: Option<Header>)
        requires
            b.len() == RECORD_SIZE,
        ensures
            r is Some <==> header_valid(b@),
            r matches Some(h) ==> {
                &&& h.signature@ == b@.subrange(0, 8)
                &&& h.version == le32_at(b@, 8)
                &&& h.name@ == b@.subrange(12, 256)
                &&& h.extents@ == extents_at(b@, 256)
            },
    {
        let sig_ok = b[0] == 'R' as u8 && b[1] == 'E' as u8 && b[2] == 'D' as u8 && b[3]
            == 'O' as u8 && b[4] == 'X' as u8 && b[5] == 'F' as u8 && b[6] == 'S' as u8 && b[7]
            == 0;
        if !sig_ok {
            return None;
        }
        let version = get_le32(b, 8);
        if version != 0xFFFF_FFFF {
            return None;
        }
        Some(
            Header {
                signature: sub_bytes(b, 0, 8),
                version,
                name: sub_bytes(b, 12, 244),
                extents: read_extents(b, 256),
            },
        )
    }
}

impl NodeData {
    /// Parse one 512-byte node record.
    pub fn from_bytes(b: &Vec<u8>) -> (r: NodeData)
        requires
            b.len() == RECORD_SIZE,
        ensures
            r.name@ == b@.subrange(0, 256),
            r.extents@ == extents_at(b@, 256),
    {
        NodeData { name: sub_bytes(b, 0, 256), extents: read_extents(b, 256) }
    }
}

impl Node {
    /// Build an in-memory node from its record: the name is the record's
    /// name field up to its first NUL.
    pub fn new(block: u64, data: &NodeData) -> (r: Node)
        requires
            data.name.len() == 256,
        ensures
            r.block == block,
            r.name@ == nul_name(data.name@),
            r.extents@ == data.extents@,
    {
        let end = find_byte(&data.name, 0, 0);
        Node { block, name: sub_bytes(&data.name, 0, end), extents: clone_extents(&data.extents) }
    }

    /// The record image of this node: the name NUL-padded to 256 bytes,
    /// then the extents.
    pub fn data(&self) -> (r: NodeData)
        requires
            self.name.len() <= 256,
        ensures
            r.name@ == self.name@ + Seq::new((256 - self.name.len()) as nat, |i: int| 0u8),
            r.extents@ == self.extents@,
    {
        let mut name: Vec<u8> = Vec::new();
        let mut i: usize = 0;
        while i < self.name.len()
            invariant
                i <= self.name.len(),
                name@ == self.name@.take(i as int),
            decreases self.name.len() - i,
        {
            name.push(self.name[i]);
            i = i + 1;
            proof {
                assert(name@ =~= self.name@.take(i as int));
            }
        }
        while name.len() < 256
            invariant
                self.name.len() <= name.len() <= 256,
                name@.take(self.name.len() as int) == self.name@,
                forall|k: int| self.name.len() <= k < name.len() ==> name@[k] == 0,
            decreases 256 - name.len(),
        {
            name.push(0);
        }
        proof {
            assert(name@ =~= self.name@ + Seq::new((256 - self.name.len()) as nat, |i: int| 0u8));
        }
        NodeData { name, extents: clone_extents(&self.extents) }
    }
}

/// A node as the specifications see it: plain values only.
pub struct NodeView {
    pub block: u64,
    pub name: Seq<u8>,
    pub extents: Seq<Extent>,
}

impl View for Node {
    type V = NodeView;

    open spec fn view(&self) -> NodeView {
        NodeView { block: self.block, name: self.name@, extents: self.extents@ }
    }
}

/// The views of a list of nodes.
pub open spec fn nodes_view(v: Seq<Node>) -> Seq<NodeView> {
    v.map_values(|n: Node| n@)
}

/// The node whose record is the sector at `block`.
pub open spec fn node_at(d: Seq<u8>, block: int) -> NodeView {
    let rec = d.subrange(block * 512, block * 512 + 512);
    NodeView { block: block as u64, name: nul_name(rec.take(256)), extents: extents_at(rec, 256) }
}

/// The nodes of one node-table extent: one record per whole 512-byte slot,
/// the record at index `k` lying at block `e.block + k`.
pub open spec fn extent_nodes(d: Seq<u8>, e: Extent) -> Seq<NodeView> {
    if e.spec_is_empty() {
        Seq::empty()
    } else {
        Seq::new(((e.length as int) / 512) as nat, |k: int| node_at(d, e.block + k))
    }
}

/// The nodes of the first `i` header extents, in order.
pub open spec fn nodes_of(d: Seq<u8>, exts: Seq<Extent>, i: int) -> Seq<NodeView>
    decreases i,
{
    if i <= 0 {
        Seq::empty()
    } else {
        nodes_of(d, exts, i - 1) + extent_nodes(d, exts[i - 1])
    }
}

/// A header extent the device can actually serve.
pub open spec fn extent_in_range(e: Extent, disk_len: int) -> bool {
    (e.block + e.spec_sectors()) * SECTOR_SIZE <= disk_len
}

/// Header extent `i` of the volume image `d` is either unused or entirely
/// on the device.
pub open spec fn mount_extent_ok(d: Seq<u8>, i: int) -> bool {
    let e = extents_at(d.subrange(512, 1024), 256)[i];
    !e.spec_is_empty() ==> extent_in_range(e, d.len() as int)
}

/// A volume this filesystem can mount: room for the header block, the right
/// signature and version, and every node-table extent on the disk.
pub open spec fn mount_ok(d: Seq<u8>) -> bool {
    &&& d.len() >= 1024
    &&& header_valid(d.subrange(512, 1024))
    &&& forall|i: int| 0 <= i < 16 ==> #[trigger] mount_extent_ok(d, i)
}

/// A mounted volume: the device, the parsed header, and the in-memory node
/// list in on-disk order.
pub struct FileSystem {
    pub disk: Disk,
    pub header: Header,
    pub nodes: Vec<Node>,
}

impl FileSystem {
    pub open spec fn wf(self) -> bool {
        &&& self.disk.wf()
        &&& self.disk.queue.len() == 0
        &&& self.header.extents.len() == 16
    }

    /// Mount a volume: read the header at block 1, reject a bad signature
    /// or version, then load every node-table extent.  A read that would
    /// run off the device fails the mount.
    #[verifier::rlimit(50)]
    #[verifier::loop_isolation(false)]
    pub fn from_disk(disk: Disk) -> (r: Option<FileSystem>)
        requires
            disk.wf(),
            disk.queue.len() == 0,
        ensures
            r is Some <==> mount_ok(disk.bytes@),
            r matches Some(fs) ==> {
                &&& fs.wf()
                &&& fs.disk.bytes@ == disk.bytes@
                &&& fs.disk.irq == disk.irq
                &&& fs.header.signature@ == disk.bytes@.subrange(512, 520)
                &&& fs.header.version == le32_at(disk.bytes@, 520)
                &&& fs.header.name@ == disk.bytes@.subrange(524, 768)
                &&& fs.header.extents@ == extents_at(disk.bytes@, 768)
                &&& nodes_view(fs.nodes@) == nodes_of(disk.bytes@, fs.header.extents@, 16)
            },
    {
        let ghost d = disk.bytes@;
        let mut disk = disk;
        if disk.bytes.len() < 1024 {
            return None;
        }
        let header_bytes = disk.read_extent(Extent { block: 1, length: 512 });
        proof {
            assert(header_bytes@ =~= d.subrange(512, 1024));
        }
        let header = match Header::from_bytes(&header_bytes) {
            Some(h) => h,
            None => {
                return None;
            },
        };
        proof {
            assert(d.subrange(512, 1024).subrange(0, 8) =~= d.subrange(512, 520));
            assert(d.subrange(512, 1024).subrange(12, 256) =~= d.subrange(524, 768));
            assert(forall|i: int| 0 <= i < 16 ==> #[trigger] extents_at(d.subrange(512, 1024), 256)[i]
                == extents_at(d, 768)[i]) by {
                assert forall|i: int| 0 <= i < 16 implies #[trigger] extents_at(
                    d.subrange(512, 1024),
                    256,
                )[i] == extents_at(d, 768)[i] by {
                    assert(extent_at(d.subrange(512, 1024), 256 + 16 * i) == extent_at(
                        d,
                        768 + 16 * i,
                    ));
                }
            }
            assert(extents_at(d.subrange(512, 1024), 256) =~= extents_at(d, 768));
        }
        let mut nodes: Vec<Node> = Vec::new();
        let ghost irq0 = disk.irq;
        let mut slot: usize = 0;
        while slot < 16
            invariant
                slot <= 16,
                disk.wf(),
                disk.queue.len() == 0,
                disk.bytes@ == d,
                disk.irq == irq0,
                1024 <= d.len() < 0x1_0000_0000_0000_0000,
                header.extents.len() == 16,
                header.extents@ == extents_at(d, 768),
                nodes_view(nodes@) == nodes_of(d, header.extents@, slot as int),
                forall|i: int|
                    0 <= i < slot ==> {
                        let e = #[trigger] header.extents@[i];
                        !e.spec_is_empty() ==> extent_in_range(e, d.len() as int)
                    },
            decreases 16 - slot,
        {
            let ext = header.extents[slot];
            if !(ext.block == 0 || ext.length == 0) {
                let sectors = ext.sectors();
                let in_range = (ext.block as u128 + sectors as u128) * (SECTOR_SIZE as u128)
                    <= disk.bytes.len() as u128;
                if !in_range {
                    proof {
                        assert(extent_at(d.subrange(512, 1024), 256 + 16 * (slot as int))
                            == extent_at(d, 768 + 16 * (slot as int)));
                        assert(extents_at(d.subrange(512, 1024), 256)[slot as int] == ext);
                        assert(!mount_extent_ok(d, slot as int));
                    }
                    return None;
                }
                let data = disk.read_extent(ext);
                let records: usize = (ext.length / SECTOR_SIZE) as usize;
                proof {
                    lemma_div_mul_le(ext.length as int, SECTOR_SIZE as int);
                    lemma_sectors_floor_le(ext.length as int);
                }
                let mut k: usize = 0;
                while k < records
                    invariant
                        k <= records,
                        records == (ext.length as int) / 512,
                        records * 512 <= ext.length,
                        records <= ext.spec_sectors(),
                        data@ == d.subrange(
                            ext.block * SECTOR_SIZE,
                            ext.block * SECTOR_SIZE + ext.length,
                        ),
                        extent_in_range(ext, d.len() as int),
                        d.len() < 0x1_0000_0000_0000_0000,
                        !ext.spec_is_empty(),
                        nodes_view(nodes@) == nodes_of(d, header.extents@, slot as int)
                            + Seq::new(k as nat, |k2: int| node_at(d, ext.block + k2)),
                    decreases records - k,
                {
                    let rec = sub_bytes(&data, k * 512, 512);
                    proof {
                        assert(rec@ =~= d.subrange(
                            (ext.block + k) * 512,
                            (ext.block + k) * 512 + 512,
                        ));
                    }
                    let nd = NodeData::from_bytes(&rec);
                    proof {
                        assert(ext.block + records <= (ext.block + ext.spec_sectors()) * 512);
                    }
                    let node = Node::new(ext.block + k as u64, &nd);
                    proof {
                        assert(nd.name@ == rec@.take(256)) by {
                            assert(rec@.subrange(0, 256) =~= rec@.take(256));
                        }
                        assert(node@ == node_at(d, ext.block + k as int));
                    }
                    let ghost nv = nodes@;
                    nodes.push(node);
                    k = k + 1;
                    proof {
                        lemma_nodes_view_push(nv, node);
                        assert(Seq::new(k as nat, |k2: int| node_at(d, ext.block + k2)) =~= Seq::new(
                            (k - 1) as nat,
                            |k2: int| node_at(d, ext.block + k2),
                        ).push(node_at(d, ext.block + (k - 1))));
                        assert(nodes_of(d, header.extents@, slot as int) + Seq::new(
                            k as nat,
                            |k2: int| node_at(d, ext.block + k2),
                        ) =~= (nodes_of(d, header.extents@, slot as int) + Seq::new(
                            (k - 1) as nat,
                            |k2: int| node_at(d, ext.block + k2),
                        )).push(node_at(d, ext.block + (k - 1))));
                    }
                }
                proof {
                    assert(Seq::new(records as nat, |k2: int| node_at(d, ext.block + k2))
                        =~= extent_nodes(d, ext));
                }
            }
            slot = slot + 1;
            proof {
                if header.extents@[slot - 1].spec_is_empty() {
                    assert(extent_nodes(d, header.extents@[slot - 1]) =~= Seq::<NodeView>::empty());
                }
                assert(nodes_view(nodes@) =~= nodes_of(d, header.extents@, slot as int));
            }
        }
        Some(FileSystem { disk, header, nodes })
    }
}

/// Does `s` start with `p`?
pub open spec fn starts_with(s: Seq<u8>, p: Seq<u8>) -> bool {
    p.len() <= s.len() && s.take(p.len() as int) == p
}

/// The first node of the list carrying exactly this name, if any.
pub open spec fn spec_find_node(nodes: Seq<NodeView>, name: Seq<u8>) -> Option<NodeView>
    decreases nodes.len(),
{
    if nodes.len() == 0 {
        None
    } else if nodes[0].name == name {
        Some(nodes[0])
    } else {
        spec_find_node(nodes.skip(1), name)
    }
}

/// What one node contributes to the listing of `prefix`: nothing unless its
/// name starts with the prefix; otherwise the remainder, collapsed to the
/// first path component (with its `/`) when the remainder descends further.
pub open spec fn list_entry(name: Seq<u8>, prefix: Seq<u8>) -> Option<Seq<u8>> {
    if !starts_with(name, prefix) {
        None
    } else {
        let rem = name.skip(prefix.len() as int);
        let slash = first_index(rem, 0, '/' as u8);
        if slash < rem.len() {
            Some(rem.take(slash + 1))
        } else {
            Some(rem)
        }
    }
}

/// The listing built from the remaining nodes, given the entries already
/// collected: empty remainders and entries already present are dropped.
pub open spec fn spec_list_rec(nodes: Seq<NodeView>, prefix: Seq<u8>, acc: Seq<Seq<u8>>) -> Seq<
    Seq<u8>,
>
    decreases nodes.len(),
{
    if nodes.len() == 0 {
        acc
    } else {
        let acc2 = match list_entry(nodes[0].name, prefix) {
            Some(e) => if e.len() == 0 || acc.contains(e) {
                acc
            } else {
                acc.push(e)
            },
            None => acc,
        };
        spec_list_rec(nodes.skip(1), prefix, acc2)
    }
}

/// The directory listing of `prefix`: one entry per node under it, in node
/// order, first occurrence kept.
pub open spec fn spec_list(nodes: Seq<NodeView>, prefix: Seq<u8>) -> Seq<Seq<u8>> {
    spec_list_rec(nodes, prefix, Seq::empty())
}

/// Does the entry list already hold `x`?
fn contains_bytes(list: &Vec<Vec<u8>>, x: &Vec<u8>) -> (r: bool)
    ensures
        r == list.deep_view().contains(x@),
{
    let mut i: usize = 0;
    while i < list.len()
        invariant
            i <= list.len(),
            forall|k: int| 0 <= k < i ==> list.deep_view()[k] != x@,
        decreases list.len() - i,
    {
        if bytes_eq(&list[i], x) {
            proof {
                lemma_bytes_deep_view(list@[i as int]);
                assert(list.deep_view()[i as int] == x@);
            }
            return true;
        }
        i = i + 1;
        proof {
            lemma_bytes_deep_view(list@[i - 1]);
        }
    }
    proof {
        if list.deep_view().contains(x@) {
            let k = choose|k: int| 0 <= k < list.deep_view().len() && list.deep_view()[k] == x@;
            assert(list.deep_view()[k] != x@);
        }
    }
    false
}

/// Does `s` start with `p`?
fn bytes_starts_with(s: &Vec<u8>, p: &Vec<u8>) -> (r: bool)
    ensures
        r == starts_with(s@, p@),
{
    if p.len() > s.len() {
        return false;
    }
    let mut i: usize = 0;
    while i < p.len()
        invariant
            i <= p.len() <= s.len(),
            forall|k: int| 0 <= k < i ==> s@[k] == p@[k],
        decreases p.len() - i,
    {
        if s[i] != p[i] {
            proof {
                assert(s@.take(p.len() as int)[i as int] != p@[i as int]);
            }
            return false;
        }
        i = i + 1;
    }
    proof {
        assert(s@.take(p.len() as int) =~= p@);
    }
    true
}

impl FileSystem {
    /// Get the node with the given full path, matched byte for byte; the
    /// first match wins.
    pub fn node(&self, filename: &Vec<u8>) -> (r: Option<Node>)
        ensures
            match spec_find_node(nodes_view(self.nodes@), filename@) {
                Some(n) => r matches Some(found) && found@ == n,
                None => r is None,
            },
    {
        proof {
            assert(nodes_view(self.nodes@).skip(0) =~= nodes_view(self.nodes@));
        }
        let mut i: usize = 0;
        while i < self.nodes.len()
            invariant
                i <= self.nodes.len(),
                spec_find_node(nodes_view(self.nodes@).skip(i as int), filename@)
                    == spec_find_node(nodes_view(self.nodes@), filename@),
                forall|k: int| 0 <= k < i ==> nodes_view(self.nodes@)[k].name != filename@,
            decreases self.nodes.len() - i,
        {
            if bytes_eq(&self.nodes[i].name, filename) {
                proof {
                    assert(nodes_view(self.nodes@).skip(i as int)[0] == nodes_view(self.nodes@)[
                    i as int]);
                }
                let n = &self.nodes[i];
                let found = Node {
                    block: n.block,
                    name: sub_bytes(&n.name, 0, n.name.len()),
                    extents: clone_extents(&n.extents),
                };
                proof {
                    assert(found.name@ =~= n.name@);
                    assert(found@ == nodes_view(self.nodes@)[i as int]);
                }
                return Some(found);
            }
            i = i + 1;
            proof {
                assert(nodes_view(self.nodes@).skip(i - 1).skip(1) =~= nodes_view(
                    self.nodes@,
                ).skip(i as int));
            }
        }
        proof {
            assert(nodes_view(self.nodes@).skip(self.nodes.len() as int) =~= Seq::<
                NodeView,
            >::empty());
        }
        None
    }

    /// List the entries under a directory prefix: each node whose name
    /// starts with the prefix contributes its remainder, collapsed to its
    /// first path component; duplicates and the bare prefix itself are
    /// dropped, first occurrence order kept.
    #[verifier::loop_isolation(false)]
    pub fn list(&self, directory: &Vec<u8>) -> (r: Vec<Vec<u8>>)
        ensures
            r.deep_view() == spec_list(nodes_view(self.nodes@), directory@),
    {
        let mut ret: Vec<Vec<u8>> = Vec::new();
        proof {
            assert(nodes_view(self.nodes@).skip(0) =~= nodes_view(self.nodes@));
            assert(ret.deep_view() =~= Seq::<Seq<u8>>::empty());
        }
        let mut i: usize = 0;
        while i < self.nodes.len()
            invariant
                i <= self.nodes.len(),
                spec_list_rec(nodes_view(self.nodes@).skip(i as int), directory@, ret.deep_view())
                    == spec_list(nodes_view(self.nodes@), directory@),
            decreases self.nodes.len() - i,
        {
            let ghost nv = nodes_view(self.nodes@).skip(i as int);
            let node = &self.nodes[i];
            proof {
                assert(nv[0] == nodes_view(self.nodes@)[i as int]);
            }
            if bytes_starts_with(&node.name, directory) {
                let rem = sub_bytes(&node.name, directory.len(), node.name.len() - directory.len());
                proof {
                    assert(rem@ =~= node.name@.skip(directory.len() as int));
                }
                let slash = find_byte(&rem, 0, '/' as u8);
                let entry = if slash < rem.len() {
                    sub_bytes(&rem, 0, slash + 1)
                } else {
                    rem
                };
                proof {
                    assert(entry@ =~= list_entry(nv[0].name, directory@).unwrap());
                }
                if entry.len() > 0 && !contains_bytes(&ret, &entry) {
                    let ghost rv = ret.deep_view();
                    let ghost entry_bytes = entry@;
                    ret.push(entry);
                    proof {
                        lemma_bytes_deep_view(ret@[ret.len() - 1]);
                        assert(ret.deep_view() =~= rv.push(entry_bytes));
                    }
                }
            }
            i = i + 1;
            proof {
                assert(nv.skip(1) =~= nodes_view(self.nodes@).skip(i as int));
            }
        }
        proof {
            assert(nodes_view(self.nodes@).skip(self.nodes.len() as int) =~= Seq::<
                NodeView,
            >::empty());
        }
        ret
    }
}

/// The 16 on-disk bytes of one extent slot.
pub open spec fn extent_record_bytes(e: Extent) -> Seq<u8> {
    le64_bytes(e.block as int) + le64_bytes(e.length as int)
}

/// The on-disk bytes of the first `i` extent slots, in order.
pub open spec fn extents_record_bytes(es: Seq<Extent>, i: int) -> Seq<u8>
    decreases i,
{
    if i <= 0 {
        Seq::empty()
    } else {
        extents_record_bytes(es, i - 1) + extent_record_bytes(es[i - 1])
    }
}

/// The 512-byte record image of a node: its name NUL-padded to 256 bytes,
/// then its 16 extent slots.
pub open spec fn spec_node_record(n: NodeView) -> Seq<u8> {
    n.name + zeros(256 - n.name.len()) + extents_record_bytes(n.extents, 16)
}

/// Build the record image of a node for rewriting its sector.
pub fn node_record_bytes(node: &Node) -> (r: Vec<u8>)
    requires
        node.name.len() <= 256,
        node.extents.len() == 16,
    ensures
        r@ == spec_node_record(node@),
        r.len() == 512,
{
    let data = node.data();
    let mut out = data.name;
    let ghost padded = node.name@ + zeros(256 - node.name@.len());
    proof {
        assert(out@ =~= padded + extents_record_bytes(node@.extents, 0));
    }
    let mut i: usize = 0;
    while i < 16
        invariant
            i <= 16,
            node.extents.len() == 16,
            out.len() == 256 + 16 * i,
            out@ == padded + extents_record_bytes(node@.extents, i as int),
        decreases 16 - i,
    {
        put_le64(&mut out, node.extents[i].block);
        put_le64(&mut out, node.extents[i].length);
        i = i + 1;
        proof {
            assert(out@ =~= padded + extents_record_bytes(node@.extents, i as int));
        }
    }
    out
}

/// No entry occurs twice.
pub open spec fn no_dup_entries(s: Seq<Seq<u8>>) -> bool {
    forall|i: int, j: int| 0 <= i < j < s.len() ==> s[i] != s[j]
}

/// A listing entry is either a plain name without `/`, or a collapsed
/// directory component ending in `/`.
pub open spec fn entry_shape_ok(e: Seq<u8>) -> bool {
    ||| forall|k: int| 0 <= k < e.len() ==> e[k] != '/' as u8
    ||| e.len() > 0 && e[e.len() - 1] == '/' as u8
}

/// `first_index` lands at or after `from`, on an occurrence if there is
/// one, with none before it.
pub proof fn lemma_first_index_props(s: Seq<u8>, from: int, b: u8)
    requires
        0 <= from <= s.len(),
    ensures
        from <= first_index(s, from, b) <= s.len(),
        first_index(s, from, b) < s.len() ==> s[first_index(s, from, b)] == b,
        forall|k: int| from <= k < first_index(s, from, b) ==> s[k] != b,
    decreases s.len() - from,
{
    if from < s.len() && s[from] != b {
        lemma_first_index_props(s, from + 1, b);
    }
}

/// Carrying the listing forward keeps entries unique and well shaped.
proof fn lemma_list_rec_props(nodes: Seq<NodeView>, prefix: Seq<u8>, acc: Seq<Seq<u8>>)
    requires
        no_dup_entries(acc),
        forall|i: int| 0 <= i < acc.len() ==> entry_shape_ok(#[trigger] acc[i]),
    ensures
        no_dup_entries(spec_list_rec(nodes, prefix, acc)),
        forall|i: int|
            0 <= i < spec_list_rec(nodes, prefix, acc).len() ==> entry_shape_ok(
                #[trigger] spec_list_rec(nodes, prefix, acc)[i],
            ),
    decreases nodes.len(),
{
    if nodes.len() > 0 {
        let acc2 = match list_entry(nodes[0].name, prefix) {
            Some(e) => if e.len() == 0 || acc.contains(e) {
                acc
            } else {
                acc.push(e)
            },
            None => acc,
        };
        match list_entry(nodes[0].name, prefix) {
            Some(e) => {
                if e.len() == 0 || acc.contains(e) {
                } else {
                    let rem = nodes[0].name.skip(prefix.len() as int);
                    lemma_first_index_props(rem, 0, '/' as u8);
                    assert(entry_shape_ok(e));
                    assert(no_dup_entries(acc2)) by {
                        assert(forall|k: int| 0 <= k < acc.len() ==> acc[k] != e);
                    }
                }
            },
            None => {},
        }
        lemma_list_rec_props(nodes.skip(1), prefix, acc2);
    }
}

/// Every directory listing is free of duplicates, and each of its entries
/// either contains no `/` or is a collapsed component ending in `/`.
pub proof fn lemma_list_properties(nodes: Seq<NodeView>, prefix: Seq<u8>)
    ensures
        no_dup_entries(spec_list(nodes, prefix)),
        forall|i: int|
            0 <= i < spec_list(nodes, prefix).len() ==> entry_shape_ok(
                #[trigger] spec_list(nodes, prefix)[i],
            ),
{
    lemma_list_rec_props(nodes, prefix, Seq::empty());
}

/// Viewing a node list commutes with appending one node.
pub proof fn lemma_nodes_view_push(s: Seq<Node>, n: Node)
    ensures
        nodes_view(s.push(n)) == nodes_view(s).push(n@),
{
    assert(nodes_view(s.push(n)) =~= nodes_view(s).push(n@));
}

/// Flooring a length to whole sectors stays within it.
pub proof fn lemma_div_mul_le(l: int, d: int)
    by (nonlinear_arith)
    requires
        l >= 0,
        d > 0,
    ensures
        (l / d) * d <= l,
{
}

/// A length's whole-sector count never exceeds its rounded-up sector count.
pub proof fn lemma_sectors_floor_le(l: int)
    by (nonlinear_arith)
    requires
        l >= 0,
    ensures
        l / 512 <= (l + 511) / 512,
{
}

/// Copy a node; the copy carries the same view.
pub fn clone_node(n: &Node) -> (r: Node)
    ensures
        r@ == n@,
{
    let name = sub_bytes(&n.name, 0, n.name.len());
    proof {
        assert(name@ =~= n.name@);
    }
    Node { block: n.block, name, extents: clone_extents(&n.extents) }
}

/// Copy an extent list.
pub fn clone_extents(v: &Vec<Extent>) -> (r: Vec<Extent>)
    ensures
        r@ == v@,
{
    let mut r: Vec<Extent> = Vec::new();
    let mut i: usize = 0;
    while i < v.len()
        invariant
            i <= v.len(),
            r@ == v@.take(i as int),
        decreases v.len() - i,
    {
        r.push(v[i]);
        i = i + 1;
        proof {
            assert(r@ =~= v@.take(i as int));
        }
    }
    proof {
        assert(r@ =~= v@);
    }
    r
}

} // verus!
