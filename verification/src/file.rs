use vstd::prelude::*;

use crate::encoding::{splice, zeros};
use crate::extent::Extent;
use crate::fs::{
    extent_in_range, node_record_bytes, nodes_view, spec_node_record, FileSystem, Node, NodeView,
};
use crate::disk::Disk;
use crate::resource::{min_nat, ResourceSeek, VecResource};

verus! {

/// An open file: its node, an in-memory copy of the contents, a cursor, and
/// a flag set once the copy diverges from the disk.
pub struct FileResource {
    pub node: Node,
    pub vec: Vec<u8>,
    pub seek: usize,
    pub dirty: bool,
}

/// What a write leaves in the buffer: bytes before the cursor kept, the
/// written bytes next, and what they did not reach kept after them.
pub open spec fn write_result(data: Seq<u8>, cursor: int, buf: Seq<u8>) -> Seq<u8> {
    data.take(cursor) + buf + (if cursor + buf.len() < data.len() {
        data.skip(cursor + buf.len())
    } else {
        Seq::empty()
    })
}

/// The unclamped position a seek asks for: `Start` is absolute, the others
/// are clamped at zero below.
pub open spec fn file_seek_target(cursor: int, len: int, pos: ResourceSeek) -> int {
    match pos {
        ResourceSeek::Start(offset) => offset as int,
        ResourceSeek::Current(offset) => if cursor + offset < 0 {
            0
        } else {
            cursor + offset
        },
        ResourceSeek::End(offset) => if len + offset < 0 {
            0
        } else {
            len + offset
        },
    }
}

/// A buffer zero-extended up to `target` when the target lies past its end.
pub open spec fn extend_to(data: Seq<u8>, target: int) -> Seq<u8> {
    if target <= data.len() {
        data
    } else {
        data + zeros(target - data.len())
    }
}

/// What a read at `cursor` returns: the next `count` bytes, fewer at the
/// end of the buffer.
pub open spec fn read_window(data: Seq<u8>, cursor: int, count: int) -> Seq<u8> {
    data.subrange(cursor, cursor + min_nat(count, data.len() - cursor))
}

/// Writing a buffer at the start of a file and reading it back from the
/// start returns exactly the written bytes, whether they fit in the old
/// contents or extended them.
pub proof fn lemma_write_read_back(data: Seq<u8>, buf: Seq<u8>)
    ensures
        read_window(write_result(data, 0, buf), 0, buf.len() as int) == buf,
{
    assert(read_window(write_result(data, 0, buf), 0, buf.len() as int) =~= buf);
}

/// Seeking to `n` on an empty file zero-extends it: the file then holds
/// `n` zero bytes, and reading them from the start returns `n` zeros.
pub proof fn lemma_seek_zero_extends(n: int)
    requires
        n >= 0,
    ensures
        extend_to(Seq::empty(), n) == zeros(n),
        read_window(extend_to(Seq::empty(), n), 0, n) == zeros(n),
{
    assert(extend_to(Seq::empty(), n) =~= zeros(n));
    assert(read_window(zeros(n), 0, n) =~= zeros(n));
}

/// The write capacity of one extent slot: its current sectors, rounded up,
/// in bytes; an unused slot takes nothing.
pub open spec fn ext_cap(e: Extent) -> int {
    if e.spec_is_empty() {
        0
    } else {
        e.spec_sectors() * 512
    }
}

/// Bytes of the file still unplaced after the first `i` extent slots have
/// taken their share.
pub open spec fn remaining_after(exts: Seq<Extent>, total: int, i: int) -> int
    decreases i,
{
    if i <= 0 {
        total
    } else {
        let prev = remaining_after(exts, total, i - 1);
        prev - min_nat(prev, ext_cap(exts[i - 1]))
    }
}

/// How many bytes slot `i` receives: what is left, capped by its capacity.
pub open spec fn slot_size(exts: Seq<Extent>, total: int, i: int) -> int {
    min_nat(remaining_after(exts, total, i), ext_cap(exts[i]))
}

/// Offset into the file buffer where slot `i`'s share begins.
pub open spec fn slot_pos(exts: Seq<Extent>, total: int, i: int) -> int {
    total - remaining_after(exts, total, i)
}

/// The extents after a sync: each used slot's length becomes its share.
pub open spec fn synced_extents(exts: Seq<Extent>, total: int) -> Seq<Extent> {
    Seq::new(
        exts.len(),
        |i: int|
            if exts[i].spec_is_empty() {
                exts[i]
            } else {
                Extent { block: exts[i].block, length: slot_size(exts, total, i) as u64 }
            },
    )
}

/// Did the sync change any extent length (obliging a node-record rewrite)?
pub open spec fn extents_changed(exts: Seq<Extent>, total: int) -> bool {
    synced_extents(exts, total) != exts
}

/// Slot `i`'s share of the buffer, zero-padded to whole sectors.
pub open spec fn padded_chunk(data: Seq<u8>, pos: int, size: int) -> Seq<u8> {
    data.subrange(pos, pos + size) + zeros(((size + 511) / 512) * 512 - size)
}

/// The disk contents after the first `i` slots have been written back.
pub open spec fn sync_bytes(
    bytes: Seq<u8>,
    exts: Seq<Extent>,
    data: Seq<u8>,
    total: int,
    i: int,
) -> Seq<u8>
    decreases i,
{
    if i <= 0 {
        bytes
    } else {
        let prev = sync_bytes(bytes, exts, data, total, i - 1);
        let e = exts[i - 1];
        if e.spec_is_empty() {
            prev
        } else {
            splice(
                prev,
                e.block * 512,
                padded_chunk(data, slot_pos(exts, total, i - 1), slot_size(exts, total, i - 1)),
            )
        }
    }
}

/// The node list views after the synced node is written back over every
/// entry sharing its record block.
pub open spec fn renode(nodes: Seq<Node>, block: u64, nv: NodeView) -> Seq<NodeView> {
    Seq::new(
        nodes.len(),
        |j: int|
            if nodes[j].block == block {
                nv
            } else {
                nodes[j]@
            },
    )
}

/// A node whose write-back the device can serve: 16 slots, every used slot
/// on the disk, the record block on the disk, and a name that fits its
/// field.
pub open spec fn node_syncable(n: NodeView, disk_len: int) -> bool {
    &&& n.extents.len() == 16
    &&& forall|i: int|
        0 <= i < 16 ==> (!(#[trigger] n.extents[i]).spec_is_empty() ==> extent_in_range(
            n.extents[i],
            disk_len,
        ))
    &&& (n.block + 1) * 512 <= disk_len
    &&& n.name.len() <= 256
}

/// Unplaced bytes never go negative nor exceed the whole file.
pub proof fn lemma_remaining_bounds(exts: Seq<Extent>, total: int, i: int)
    requires
        total >= 0,
    ensures
        0 <= remaining_after(exts, total, i) <= total,
    decreases i,
{
    if i > 0 {
        lemma_remaining_bounds(exts, total, i - 1);
    }
}

/// Bytes that fit in `s` sectors round up to at most `s` sectors.
pub proof fn lemma_sectors_le(size: int, s: int)
    by (nonlinear_arith)
    requires
        0 <= size <= s * 512,
        0 <= s,
    ensures
        (size + 511) / 512 <= s,
{
}

/// Splicing keeps the length when the replacement fits.
proof fn lemma_splice_len(s: Seq<u8>, off: int, d: Seq<u8>)
    requires
        0 <= off,
        off + d.len() <= s.len(),
    ensures
        splice(s, off, d).len() == s.len(),
{
}

/// Inside the replaced range, a splice reads back the replacement.
proof fn lemma_splice_inside(s: Seq<u8>, off: int, d: Seq<u8>, a: int, b: int)
    requires
        0 <= off,
        off + d.len() <= s.len(),
        off <= a <= b <= off + d.len(),
    ensures
        splice(s, off, d).subrange(a, b) == d.subrange(a - off, b - off),
{
    assert(splice(s, off, d).subrange(a, b) =~= d.subrange(a - off, b - off));
}

/// Outside the replaced range, a splice leaves the bytes alone.
proof fn lemma_splice_outside(s: Seq<u8>, off: int, d: Seq<u8>, a: int, b: int)
    requires
        0 <= off,
        off + d.len() <= s.len(),
        0 <= a <= b <= s.len(),
        b <= off || off + d.len() <= a,
    ensures
        splice(s, off, d).subrange(a, b) == s.subrange(a, b),
{
    assert(splice(s, off, d).subrange(a, b) =~= s.subrange(a, b));
}

/// Every used slot of a syncable node lies on the disk.
pub open spec fn sync_slots_in_range(exts: Seq<Extent>, disk_len: int) -> bool {
    forall|j: int|
        0 <= j < exts.len() ==> (!(#[trigger] exts[j]).spec_is_empty() ==> extent_in_range(
            exts[j],
            disk_len,
        ))
}

/// No two used slots share a sector.
pub open spec fn extents_disjoint(exts: Seq<Extent>) -> bool {
    forall|i: int, j: int|
        0 <= i < j < exts.len() && !exts[i].spec_is_empty() && !exts[j].spec_is_empty()
            ==> exts[i].block + exts[i].spec_sectors() <= exts[j].block || exts[j].block
            + exts[j].spec_sectors() <= exts[i].block
}

/// Writing back never changes the disk's size.
pub proof fn lemma_sync_bytes_len(bytes: Seq<u8>, exts: Seq<Extent>, data: Seq<u8>, i: int)
    requires
        i <= exts.len(),
        sync_slots_in_range(exts, bytes.len() as int),
    ensures
        sync_bytes(bytes, exts, data, data.len() as int, i).len() == bytes.len(),
    decreases i,
{
    let total = data.len() as int;
    if i > 0 {
        lemma_sync_bytes_len(bytes, exts, data, i - 1);
        let e = exts[i - 1];
        if !e.spec_is_empty() {
            lemma_remaining_bounds(exts, total, i - 1);
            let size = slot_size(exts, total, i - 1);
            lemma_sectors_le(size, e.spec_sectors());
            assert(padded_chunk(data, slot_pos(exts, total, i - 1), size).len() == ((size + 511)
                / 512) * 512);
            assert(e.block * 512 + ((size + 511) / 512) * 512 <= (e.block + e.spec_sectors())
                * 512);
            lemma_splice_len(
                sync_bytes(bytes, exts, data, total, i - 1),
                e.block * 512,
                padded_chunk(data, slot_pos(exts, total, i - 1), size),
            );
        }
    }
}

/// After a write-back, each used slot's share of the disk is exactly its
/// slice of the buffer: reading the slot's new length from its block gives
/// the bytes the sync placed there.  The slots must not overlap.
pub proof fn lemma_sync_extent_contents(bytes: Seq<u8>, exts: Seq<Extent>, data: Seq<u8>, k: int)
    requires
        0 <= k < exts.len(),
        !exts[k].spec_is_empty(),
        extents_disjoint(exts),
        sync_slots_in_range(exts, bytes.len() as int),
    ensures
        ({
            let total = data.len() as int;
            let size = slot_size(exts, total, k);
            sync_bytes(bytes, exts, data, total, exts.len() as int).subrange(
                exts[k].block * 512,
                exts[k].block * 512 + size,
            ) == data.subrange(slot_pos(exts, total, k), slot_pos(exts, total, k) + size)
        }),
{
    lemma_sync_extent_contents_upto(bytes, exts, data, k, exts.len() as int);
}

/// The claim of `lemma_sync_extent_contents`, after only the first `m`
/// slots have been written, for any `m` past the slot itself.
proof fn lemma_sync_extent_contents_upto(
    bytes: Seq<u8>,
    exts: Seq<Extent>,
    data: Seq<u8>,
    k: int,
    m: int,
)
    requires
        0 <= k < m <= exts.len(),
        !exts[k].spec_is_empty(),
        extents_disjoint(exts),
        sync_slots_in_range(exts, bytes.len() as int),
    ensures
        ({
            let total = data.len() as int;
            let size = slot_size(exts, total, k);
            sync_bytes(bytes, exts, data, total, m).subrange(
                exts[k].block * 512,
                exts[k].block * 512 + size,
            ) == data.subrange(slot_pos(exts, total, k), slot_pos(exts, total, k) + size)
        }),
    decreases m,
{
    let total = data.len() as int;
    let e = exts[k];
    let size = slot_size(exts, total, k);
    let pos = slot_pos(exts, total, k);
    lemma_remaining_bounds(exts, total, k);
    lemma_sectors_le(size, e.spec_sectors());
    lemma_sync_bytes_len(bytes, exts, data, m - 1);
    let prev = sync_bytes(bytes, exts, data, total, m - 1);
    if m == k + 1 {
        let chunk = padded_chunk(data, pos, size);
        assert(chunk.len() == ((size + 511) / 512) * 512);
        assert(e.block * 512 + chunk.len() <= (e.block + e.spec_sectors()) * 512);
        lemma_splice_inside(prev, e.block * 512, chunk, e.block * 512, e.block * 512 + size);
        assert(chunk.subrange(0, size) =~= data.subrange(pos, pos + size));
    } else {
        lemma_sync_extent_contents_upto(bytes, exts, data, k, m - 1);
        let f = exts[m - 1];
        if f.spec_is_empty() {
        } else {
            let fsize = slot_size(exts, total, m - 1);
            let fchunk = padded_chunk(data, slot_pos(exts, total, m - 1), fsize);
            lemma_remaining_bounds(exts, total, m - 1);
            lemma_sectors_le(fsize, f.spec_sectors());
            assert(fchunk.len() == ((fsize + 511) / 512) * 512);
            assert(f.block * 512 + fchunk.len() <= (f.block + f.spec_sectors()) * 512);
            assert(e.block + e.spec_sectors() <= f.block || f.block + f.spec_sectors() <= e.block);
            assert(size <= e.spec_sectors() * 512);
            lemma_splice_outside(
                prev,
                f.block * 512,
                fchunk,
                e.block * 512,
                e.block * 512 + size,
            );
        }
    }
}

/// Copy `size` bytes of `data` at `pos`, zero-padded up to `padded`.
fn padded_sub(data: &Vec<u8>, pos: usize, size: usize, padded: usize) -> (r: Vec<u8>)
    requires
        pos + size <= data.len(),
        size <= padded,
    ensures
        r@ == data@.subrange(pos as int, pos + size) + zeros(padded - size),
        r.len() == padded,
{
    let mut r = crate::encoding::sub_bytes(data, pos, size);
    while r.len() < padded
        invariant
            size <= r.len() <= padded,
            r@.take(size as int) == data@.subrange(pos as int, pos + size),
            forall|k: int| size <= k < r.len() ==> r@[k] == 0,
        decreases padded - r.len(),
    {
        r.push(0);
    }
    proof {
        assert(r@ =~= data@.subrange(pos as int, pos + size) + zeros(padded - size));
    }
    r
}

impl FileResource {
    /// The cursor never runs past the buffer.
    pub open spec fn wf(self) -> bool {
        self.seek <= self.vec.len()
    }

    /// An independent handle on the same contents: cursor and buffer are
    /// snapshots.
    pub fn dup(&self) -> (r: Option<FileResource>)
        ensures
            r matches Some(d) && d.node@ == self.node@ && d.vec@ == self.vec@ && d.seek == self.seek
                && d.dirty == self.dirty,
    {
        Some(
            FileResource {
                node: crate::fs::clone_node(&self.node),
                vec: crate::encoding::sub_bytes(&self.vec, 0, self.vec.len()),
                seek: self.seek,
                dirty: self.dirty,
            },
        )
    }

    /// The URL this resource answers to: `file:///` followed by the node's
    /// path.
    pub fn url(&self) -> (r: Vec<u8>)
        ensures
            r@ == "file:///"@.map_values(|c: char| c as u8) + self.node.name@,
    {
        let mut v: Vec<u8> = Vec::new();
        v.push('f' as u8);
        v.push('i' as u8);
        v.push('l' as u8);
        v.push('e' as u8);
        v.push(':' as u8);
        v.push('/' as u8);
        v.push('/' as u8);
        v.push('/' as u8);
        proof {
            reveal_strlit("file:///");
            assert(v@ =~= "file:///"@.map_values(|c: char| c as u8));
        }
        let ghost prefix = v@;
        let mut i: usize = 0;
        while i < self.node.name.len()
            invariant
                i <= self.node.name.len(),
                v@ == prefix + self.node.name@.take(i as int),
            decreases self.node.name.len() - i,
        {
            v.push(self.node.name[i]);
            i = i + 1;
            proof {
                assert(v@ =~= prefix + self.node.name@.take(i as int));
            }
        }
        proof {
            assert(self.node.name@.take(self.node.name.len() as int) =~= self.node.name@);
        }
        v
    }

    /// Copy bytes from the cursor into the front of `buf`, leaving the rest
    /// of `buf` as it was, and advance the cursor; end of file reads as zero
    /// bytes.
    pub fn read(&mut self, buf: &mut Vec<u8>) -> (r: Option<usize>)
        requires
            old(self).wf(),
        ensures
            final(self).wf(),
            final(self).vec@ == old(self).vec@,
            final(self).node == old(self).node,
            final(self).dirty == old(self).dirty,
            ({
                let n = min_nat(old(buf).len() as int, old(self).vec.len() - old(self).seek);
                &&& r == Some(n as usize)
                &&& final(self).seek == old(self).seek + n
                &&& final(buf).len() == old(buf).len()
                &&& final(buf)@ == read_window(
                    old(self).vec@,
                    old(self).seek as int,
                    old(buf).len() as int,
                ) + old(buf)@.skip(n)
            }),
    {
        let mut i: usize = 0;
        while i < buf.len() && self.seek < self.vec.len()
            invariant
                self.wf(),
                self.vec@ == old(self).vec@,
                self.node == old(self).node,
                self.dirty == old(self).dirty,
                i <= buf.len(),
                buf.len() == old(buf).len(),
                self.seek == old(self).seek + i,
                i <= old(self).vec.len() - old(self).seek,
                buf@ == old(self).vec@.subrange(old(self).seek as int, old(self).seek + i) + old(
                    buf,
                )@.skip(i as int),
            decreases buf.len() - i,
        {
            let b = self.vec[self.seek];
            buf.set(i, b);
            self.seek = self.seek + 1;
            i = i + 1;
            proof {
                assert(buf@ =~= old(self).vec@.subrange(old(self).seek as int, old(self).seek + i)
                    + old(buf)@.skip(i as int));
            }
        }
        Some(i)
    }

    /// Overwrite from the cursor, appending once the end of the buffer is
    /// reached; the whole of `buf` is always consumed.  A non-empty write
    /// marks the resource dirty.
    pub fn write(&mut self, buf: &Vec<u8>) -> (r: Option<usize>)
        requires
            old(self).wf(),
            old(self).seek + buf.len() <= usize::MAX,
        ensures
            final(self).wf(),
            final(self).node == old(self).node,
            final(self).vec@ == write_result(old(self).vec@, old(self).seek as int, buf@),
            final(self).seek == old(self).seek + buf.len(),
            final(self).dirty == (old(self).dirty || buf.len() > 0),
            r == Some(buf.len()),
    {
        let mut i: usize = 0;
        while i < buf.len() && self.seek < self.vec.len()
            invariant
                self.wf(),
                self.node == old(self).node,
                self.dirty == old(self).dirty,
                i <= buf.len(),
                self.seek == old(self).seek + i,
                old(self).seek + buf.len() <= usize::MAX,
                self.vec.len() == old(self).vec.len(),
                self.vec@ == old(self).vec@.take(old(self).seek as int) + buf@.take(i as int) + old(
                    self,
                ).vec@.skip(old(self).seek + i),
            decreases buf.len() - i,
        {
            let b = buf[i];
            self.vec.set(self.seek, b);
            self.seek = self.seek + 1;
            i = i + 1;
            proof {
                assert(self.vec@ =~= old(self).vec@.take(old(self).seek as int) + buf@.take(i as int)
                    + old(self).vec@.skip(old(self).seek + i));
            }
        }
        while i < buf.len()
            invariant
                self.wf(),
                self.node == old(self).node,
                self.dirty == old(self).dirty,
                i <= buf.len(),
                self.seek == old(self).seek + i,
                old(self).seek + buf.len() <= usize::MAX,
                self.seek == self.vec.len() || i == buf.len(),
                self.vec@ == old(self).vec@.take(old(self).seek as int) + buf@.take(i as int) + (
                if old(self).seek + i < old(self).vec.len() {
                    old(self).vec@.skip(old(self).seek + i)
                } else {
                    Seq::<u8>::empty()
                }),
            decreases buf.len() - i,
        {
            let b = buf[i];
            self.vec.push(b);
            self.seek = self.seek + 1;
            i = i + 1;
            proof {
                assert(self.vec@ =~= old(self).vec@.take(old(self).seek as int) + buf@.take(i as int)
                    + Seq::<u8>::empty());
            }
        }
        if i > 0 {
            self.dirty = true;
        }
        proof {
            assert(buf@.take(buf.len() as int) =~= buf@);
            assert(self.vec@ =~= write_result(old(self).vec@, old(self).seek as int, buf@));
        }
        Some(i)
    }

    /// Write the buffer back into the node's extents, in order: each used
    /// slot takes as much of what is left as its current sectors hold, its
    /// length is updated to its share, and the share is written to the disk
    /// in whole sectors.  If any length changed, the node record is
    /// rewritten and the mounted node list updated.  Returns false when the
    /// extents could not hold the whole buffer (no reallocation is
    /// attempted); the dirty flag is cleared either way.  A clean resource
    /// does nothing and reports success.
    #[verifier::rlimit(100)]
    #[verifier::loop_isolation(false)]
    pub fn sync(&mut self, fs: &mut FileSystem) -> (r: bool)
        requires
            old(self).wf(),
            old(fs).wf(),
            node_syncable(old(self).node@, old(fs).disk.bytes.len() as int),
        ensures
            final(self).wf(),
            final(fs).wf(),
            final(self).dirty == false,
            !old(self).dirty ==> *final(self) == *old(self) && *final(fs) == *old(fs) && r == true,
            old(self).dirty ==> ({
                let exts = old(self).node.extents@;
                let total = old(self).vec.len() as int;
                let base = sync_bytes(old(fs).disk.bytes@, exts, old(self).vec@, total, 16);
                let newview = NodeView {
                    block: old(self).node.block,
                    name: old(self).node.name@,
                    extents: synced_extents(exts, total),
                };
                &&& final(self).node.block == old(self).node.block
                &&& final(self).node.name@ == old(self).node.name@
                &&& final(self).node.extents@ == synced_extents(exts, total)
                &&& final(self).vec@ == old(self).vec@
                &&& final(self).seek == old(self).seek
                &&& r == (remaining_after(exts, total, 16) == 0)
                &&& final(fs).header == old(fs).header
                &&& final(fs).disk.irq == old(fs).disk.irq
                &&& final(fs).disk.bytes.len() == old(fs).disk.bytes.len()
                &&& (extents_changed(exts, total) ==> final(fs).disk.bytes@ == splice(
                    base,
                    old(self).node.block * 512,
                    spec_node_record(newview),
                ) && nodes_view(final(fs).nodes@) == renode(
                    old(fs).nodes@,
                    old(self).node.block,
                    newview,
                ))
                &&& (!extents_changed(exts, total) ==> final(fs).disk.bytes@ == base
                    && final(fs).nodes@ == old(fs).nodes@)
            }),
    {
        if !self.dirty {
            return true;
        }
        let ghost exts = self.node.extents@;
        let ghost total = self.vec.len() as int;
        let ghost d0 = fs.disk.bytes@;
        let mut node_dirty = false;
        let mut pos: usize = 0;
        let mut remaining: usize = self.vec.len();
        let mut slot: usize = 0;
        while slot < 16
            invariant
                slot <= 16,
                remaining == remaining_after(exts, total, slot as int),
                pos == total - remaining,
                self.node.extents.len() == 16,
                self.node.block == old(self).node.block,
                self.node.name@ == old(self).node.name@,
                self.vec@ == old(self).vec@,
                self.seek == old(self).seek,
                self.dirty == old(self).dirty,
                forall|j: int|
                    0 <= j < slot ==> self.node.extents@[j] == synced_extents(exts, total)[j],
                forall|j: int| slot <= j < 16 ==> self.node.extents@[j] == exts[j],
                node_dirty <==> exists|j: int|
                    0 <= j < slot && synced_extents(exts, total)[j] != exts[j],
                fs.disk.wf(),
                fs.disk.queue.len() == 0,
                fs.disk.bytes.len() == old(fs).disk.bytes.len(),
                fs.disk.irq == old(fs).disk.irq,
                fs.disk.bytes@ == sync_bytes(d0, exts, old(self).vec@, total, slot as int),
                fs.header == old(fs).header,
                fs.nodes == old(fs).nodes,
            decreases 16 - slot,
        {
            proof {
                lemma_remaining_bounds(exts, total, slot as int);
            }
            let ext = self.node.extents[slot];
            if !ext.is_empty() {
                proof {
                    assert(!old(self).node@.extents[slot as int].spec_is_empty());
                    assert(extent_in_range(ext, fs.disk.bytes.len() as int));
                    assert(ext.spec_sectors() * 512 <= (ext.block + ext.spec_sectors()) * 512);
                }
                let sectors = ext.sectors();
                let cap: usize = (sectors * 512) as usize;
                let size: usize = if remaining < cap {
                    remaining
                } else {
                    cap
                };
                proof {
                    assert(ext_cap(exts[slot as int]) == cap);
                    assert(size == slot_size(exts, total, slot as int));
                }
                if size as u64 != ext.length {
                    self.node.extents.set(slot, Extent { block: ext.block, length: size as u64 });
                    node_dirty = true;
                    proof {
                        assert(synced_extents(exts, total)[slot as int] != exts[slot as int]);
                    }
                }
                let new_ext = Extent { block: ext.block, length: size as u64 };
                proof {
                    lemma_sectors_le(size as int, ext.spec_sectors());
                    assert((new_ext.block + new_ext.spec_sectors()) * 512 <= (ext.block
                        + ext.spec_sectors()) * 512);
                }
                let padded: usize = (new_ext.sectors() * 512) as usize;
                let chunk = padded_sub(&self.vec, pos, size, padded);
                proof {
                    assert(chunk@ =~= padded_chunk(
                        old(self).vec@,
                        slot_pos(exts, total, slot as int),
                        slot_size(exts, total, slot as int),
                    ));
                }
                fs.disk.write_extent(new_ext, &chunk);
                pos = pos + size;
                remaining = remaining - size;
            } else {
                proof {
                    assert(ext_cap(exts[slot as int]) == 0);
                    assert(synced_extents(exts, total)[slot as int] == exts[slot as int]);
                }
            }
            slot = slot + 1;
            proof {
                assert(remaining_after(exts, total, slot as int) == remaining);
                assert(fs.disk.bytes@ == sync_bytes(d0, exts, old(self).vec@, total, slot as int));
            }
        }
        proof {
            assert(self.node.extents@ =~= synced_extents(exts, total));
            if node_dirty {
                assert(synced_extents(exts, total) != exts);
            } else {
                assert(synced_extents(exts, total) =~= exts);
            }
        }
        if node_dirty {
            let record = node_record_bytes(&self.node);
            fs.disk.write_extent(Extent { block: self.node.block, length: 512 }, &record);
            let ghost newview = self.node@;
            let ghost dafter = fs.disk;
            let mut j: usize = 0;
            while j < fs.nodes.len()
                invariant
                    j <= fs.nodes.len(),
                    fs.nodes.len() == old(fs).nodes.len(),
                    fs.disk == dafter,
                    fs.header == old(fs).header,
                    self.node.block == old(self).node.block,
                    self.node@ == newview,
                    forall|k: int|
                        0 <= k < j ==> (#[trigger] fs.nodes@[k])@ == renode(
                            old(fs).nodes@,
                            old(self).node.block,
                            newview,
                        )[k],
                    forall|k: int|
                        j <= k < fs.nodes.len() ==> #[trigger] fs.nodes@[k] == old(fs).nodes@[k],
                decreases fs.nodes.len() - j,
            {
                if fs.nodes[j].block == self.node.block {
                    fs.nodes.set(j, crate::fs::clone_node(&self.node));
                }
                j = j + 1;
            }
            proof {
                assert(nodes_view(fs.nodes@) =~= renode(
                    old(fs).nodes@,
                    old(self).node.block,
                    newview,
                ));
            }
        }
        self.dirty = false;
        remaining == 0
    }

    /// Release the handle: flush dirty contents, ignoring whether the
    /// extents could hold them.  Callers release every handle this way on
    /// every exit path.
    pub fn close(&mut self, fs: &mut FileSystem)
        requires
            old(self).wf(),
            old(fs).wf(),
            node_syncable(old(self).node@, old(fs).disk.bytes.len() as int),
        ensures
            final(self).wf(),
            final(fs).wf(),
            final(self).dirty == false,
            !old(self).dirty ==> *final(self) == *old(self) && *final(fs) == *old(fs),
            old(self).dirty ==> ({
                let exts = old(self).node.extents@;
                let total = old(self).vec.len() as int;
                let base = sync_bytes(old(fs).disk.bytes@, exts, old(self).vec@, total, 16);
                let newview = NodeView {
                    block: old(self).node.block,
                    name: old(self).node.name@,
                    extents: synced_extents(exts, total),
                };
                &&& final(self).node.extents@ == synced_extents(exts, total)
                &&& final(self).vec@ == old(self).vec@
                &&& (extents_changed(exts, total) ==> final(fs).disk.bytes@ == splice(
                    base,
                    old(self).node.block * 512,
                    spec_node_record(newview),
                ))
                &&& (!extents_changed(exts, total) ==> final(fs).disk.bytes@ == base)
            }),
    {
        let _synced = self.sync(fs);
    }

    /// Move the cursor: clamped at zero below, and past the end the buffer
    /// is zero-extended up to the new cursor.  Seeking alone never marks the
    /// resource dirty.
    pub fn seek(&mut self, pos: ResourceSeek) -> (r: Option<usize>)
        requires
            old(self).wf(),
            file_seek_target(old(self).seek as int, old(self).vec.len() as int, pos) <= usize::MAX,
        ensures
            final(self).wf(),
            final(self).node == old(self).node,
            final(self).dirty == old(self).dirty,
            final(self).seek == file_seek_target(old(self).seek as int, old(self).vec.len() as int, pos),
            final(self).vec@ == extend_to(old(self).vec@, final(self).seek as int),
            r == Some(final(self).seek),
    {
        let target128: i128 = match pos {
            ResourceSeek::Start(offset) => offset as i128,
            ResourceSeek::Current(offset) => {
                let t = self.seek as i128 + offset as i128;
                if t < 0 {
                    0
                } else {
                    t
                }
            },
            ResourceSeek::End(offset) => {
                let t = self.vec.len() as i128 + offset as i128;
                if t < 0 {
                    0
                } else {
                    t
                }
            },
        };
        let target: usize = target128 as usize;
        self.seek = target;
        while self.vec.len() < target
            invariant
                self.node == old(self).node,
                self.dirty == old(self).dirty,
                self.seek == target,
                self.vec@ == extend_to(old(self).vec@, self.vec.len() as int),
                old(self).vec.len() <= self.vec.len(),
                self.vec.len() <= target || self.vec.len() == old(self).vec.len(),
            decreases target - self.vec.len(),
        {
            self.vec.push(0);
            proof {
                assert(self.vec@ =~= extend_to(old(self).vec@, self.vec.len() as int));
            }
        }
        proof {
            assert(self.vec@ =~= extend_to(old(self).vec@, target as int));
        }
        Some(target)
    }
}

/// A path opened as a directory listing: empty, or ending in `/`.
pub open spec fn is_listing(p: Seq<u8>) -> bool {
    p.len() == 0 || p[p.len() - 1] == '/' as u8
}

/// The file's contents: the bytes of its first `i` used extents, in order.
pub open spec fn file_contents(d: Seq<u8>, exts: Seq<Extent>, i: int) -> Seq<u8>
    decreases i,
{
    if i <= 0 {
        Seq::empty()
    } else {
        file_contents(d, exts, i - 1) + (if exts[i - 1].spec_is_empty() {
            Seq::empty()
        } else {
            d.subrange(exts[i - 1].block * 512, exts[i - 1].block * 512 + exts[i - 1].length)
        })
    }
}

/// The first `i` entries joined by newlines.
pub open spec fn join_lines(entries: Seq<Seq<u8>>, i: int) -> Seq<u8>
    decreases i,
{
    if i <= 0 {
        Seq::empty()
    } else if i == 1 {
        entries[0]
    } else {
        join_lines(entries, i - 1) + seq!['\n' as u8] + entries[i - 1]
    }
}

/// What `FileScheme::open` hands back: an in-memory listing, or an open
/// file.
pub enum FileOpen {
    Listing(VecResource),
    File(FileResource),
}

/// The file scheme: a mounted filesystem serving `file:///` URLs.
pub struct FileScheme {
    pub fs: FileSystem,
}

impl FileScheme {
    pub open spec fn wf(self) -> bool {
        self.fs.wf()
    }

    /// Mount the given disk as a file scheme; a volume with a bad header
    /// cannot be mounted.
    pub fn new(disk: Disk) -> (r: Option<Box<FileScheme>>)
        requires
            disk.wf(),
            disk.queue.len() == 0,
        ensures
            r is Some <==> crate::fs::mount_ok(disk.bytes@),
            r matches Some(s) ==> s.wf() && s.fs.disk.bytes@ == disk.bytes@ && s.fs.disk.irq
                == disk.irq && nodes_view(s.fs.nodes@) == crate::fs::nodes_of(
                disk.bytes@,
                s.fs.header.extents@,
                16,
            ),
    {
        match FileSystem::from_disk(disk) {
            Some(fs) => Some(Box::new(FileScheme { fs })),
            None => None,
        }
    }

    /// The URL prefix this scheme serves.
    pub fn scheme(&self) -> (r: &'static str)
        ensures
            r@ == "file"@,
    {
        "file"
    }

    /// Drain one pending device request, if any.
    pub fn on_poll(&mut self)
        requires
            old(self).wf(),
        ensures
            final(self).wf(),
            *final(self) == *old(self),
    {
        let done = self.fs.disk.on_poll();
    }

    /// The disk's interrupt: poll the device when the interrupt is ours.
    pub fn on_irq(&mut self, irq: u8)
        requires
            old(self).wf(),
        ensures
            final(self).wf(),
            *final(self) == *old(self),
    {
        if irq == self.fs.disk.irq {
            self.on_poll();
        }
    }

    /// Open a path.  An empty path or one ending in `/` yields an in-memory
    /// listing of the entries under it, joined by newlines.  Anything else
    /// names a file: its extents are read into a buffer, in order; an
    /// unknown path, or a node whose extents or record the device cannot
    /// serve, yields nothing.
    #[verifier::rlimit(50)]
    #[verifier::loop_isolation(false)]
    pub fn open(&mut self, path: &Vec<u8>) -> (r: Option<FileOpen>)
        requires
            old(self).wf(),
        ensures
            final(self).wf(),
            final(self).fs.disk.bytes@ == old(self).fs.disk.bytes@,
            final(self).fs.disk.irq == old(self).fs.disk.irq,
            final(self).fs.header == old(self).fs.header,
            final(self).fs.nodes == old(self).fs.nodes,
            ({
                let d = old(self).fs.disk.bytes@;
                let nv = nodes_view(old(self).fs.nodes@);
                &&& (is_listing(path@) ==> ({
                    let entries = crate::fs::spec_list(nv, path@);
                    (r matches Some(o) && o matches FileOpen::Listing(v) && v.seek == 0 && v.data@
                        == join_lines(entries, entries.len() as int))
                }))
                &&& (!is_listing(path@) ==> match crate::fs::spec_find_node(nv, path@) {
                    None => r is None,
                    Some(n) => {
                        &&& (node_syncable(n, d.len() as int) ==> (r matches Some(o) && o matches
                            FileOpen::File(f)
                            && f.node@ == n && f.vec@ == file_contents(d, n.extents, 16) && f.seek
                            == 0 && f.dirty == false))
                        &&& (!node_syncable(n, d.len() as int) ==> r is None)
                    },
                })
            }),
    {
        let listing = path.len() == 0 || path[path.len() - 1] == '/' as u8;
        if listing {
            let entries = self.fs.list(path);
            let ghost es = entries.deep_view();
            let mut out: Vec<u8> = Vec::new();
            let mut i: usize = 0;
            while i < entries.len()
                invariant
                    i <= entries.len(),
                    out@ == join_lines(es, i as int),
                decreases entries.len() - i,
            {
                if i > 0 {
                    out.push('\n' as u8);
                }
                let mut k: usize = 0;
                let ghost out_before = out@;
                while k < entries[i].len()
                    invariant
                        i < entries.len(),
                        k <= entries[i as int].len(),
                        out@ == out_before + entries[i as int]@.take(k as int),
                    decreases entries[i as int].len() - k,
                {
                    let b = entries[i][k];
                    out.push(b);
                    k = k + 1;
                    proof {
                        assert(out@ =~= out_before + entries[i as int]@.take(k as int));
                    }
                }
                i = i + 1;
                proof {
                    crate::encoding::lemma_bytes_deep_view(entries@[i - 1]);
                    assert(entries[i - 1]@.take(entries[i - 1]@.len() as int) =~= es[i - 1]);
                    assert(out@ =~= join_lines(es, i as int));
                }
            }
            return Some(FileOpen::Listing(VecResource::new(out)));
        }
        let node = match self.fs.node(path) {
            Some(n) => n,
            None => {
                return None;
            },
        };
        let ghost n = node@;
        let disk_len = self.fs.disk.bytes.len();
        if node.extents.len() != 16 || node.name.len() > 256 {
            return None;
        }
        if (node.block as u128 + 1) * 512 > disk_len as u128 {
            return None;
        }
        let mut i: usize = 0;
        while i < 16
            invariant
                i <= 16,
                node.extents.len() == 16,
                node@ == n,
                disk_len == old(self).fs.disk.bytes.len(),
                forall|k: int|
                    0 <= k < i ==> (!(#[trigger] n.extents[k]).spec_is_empty() ==> extent_in_range(
                        n.extents[k],
                        disk_len as int,
                    )),
            decreases 16 - i,
        {
            let ext = node.extents[i];
            if !ext.is_empty() {
                let sectors = ext.sectors();
                if (ext.block as u128 + sectors as u128) * 512 > disk_len as u128 {
                    proof {
                        assert(!extent_in_range(n.extents[i as int], disk_len as int));
                    }
                    return None;
                }
            }
            i = i + 1;
        }
        proof {
            assert(node_syncable(n, disk_len as int));
        }
        let mut buf: Vec<u8> = Vec::new();
        let mut i: usize = 0;
        while i < 16
            invariant
                i <= 16,
                node.extents.len() == 16,
                node@ == n,
                node_syncable(n, self.fs.disk.bytes.len() as int),
                self.fs.disk.bytes@ == old(self).fs.disk.bytes@,
                self.fs.disk.irq == old(self).fs.disk.irq,
                self.fs.disk.wf(),
                self.fs.disk.queue.len() == 0,
                self.fs.header == old(self).fs.header,
                self.fs.nodes == old(self).fs.nodes,
                buf@ == file_contents(old(self).fs.disk.bytes@, n.extents, i as int),
            decreases 16 - i,
        {
            let ext = node.extents[i];
            if !ext.is_empty() {
                let mut part = self.fs.disk.read_extent(ext);
                buf.append(&mut part);
            }
            i = i + 1;
            proof {
                assert(buf@ =~= file_contents(old(self).fs.disk.bytes@, n.extents, i as int));
            }
        }
        Some(FileOpen::File(FileResource { node, vec: buf, seek: 0, dirty: false }))
    }
}

} // verus!
