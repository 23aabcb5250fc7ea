use vstd::prelude::*;

use crate::encoding::{copy_range, splice, sub_bytes};
use crate::extent::{Extent, SECTOR_SIZE};

verus! {

/// The largest sector count one device request may carry.
pub const MAX_REQUEST_SECTORS: u64 = 65535;

/// One block-device transfer: a sector range, a direction, and the payload.
/// A write carries its bytes in `data`; a read gets `data` filled when the
/// request completes.
pub struct Request {
    pub block: u64,
    pub sectors: u64,
    pub is_read: bool,
    pub data: Vec<u8>,
}

impl Request {
    /// A request the device will accept against a disk of `disk_len` bytes:
    /// bounded sector count, in range, and a write's payload filling its
    /// sectors exactly.
    pub open spec fn wf(self, disk_len: int) -> bool {
        &&& self.sectors <= MAX_REQUEST_SECTORS
        &&& (self.block + self.sectors) * SECTOR_SIZE <= disk_len
        &&& (self.is_read ==> self.data.len() == 0)
        &&& (!self.is_read ==> self.data.len() == self.sectors * SECTOR_SIZE)
    }
}

/// The block device: a flat array of whole sectors and a FIFO of submitted
/// requests, drained one at a time when the device is polled.
pub struct Disk {
    pub bytes: Vec<u8>,
    pub irq: u8,
    pub queue: Vec<Request>,
}

/// A cooperative scheduling hand-off: the single suspension point of long
/// waits.  Nothing else on this handle runs until the wait resolves.
pub fn cooperative_yield() {
}

impl Disk {
    /// A whole number of sectors, and every queued request acceptable.
    pub open spec fn wf(self) -> bool {
        &&& (self.bytes.len() as int) % (SECTOR_SIZE as int) == 0
        &&& forall|i: int|
            0 <= i < self.queue.len() ==> #[trigger] self.queue[i].wf(self.bytes.len() as int)
    }

    /// A disk over the given contents with an empty request queue.
    pub fn new(bytes: Vec<u8>, irq: u8) -> (r: Disk)
        requires
            (bytes.len() as int) % (SECTOR_SIZE as int) == 0,
        ensures
            r.wf(),
            r.bytes@ == bytes@,
            r.irq == irq,
            r.queue.len() == 0,
    {
        Disk { bytes, irq, queue: Vec::new() }
    }

    /// Enqueue a transfer; the device performs it at a later poll.
    pub fn request(&mut self, req: Request)
        requires
            old(self).wf(),
            req.wf(old(self).bytes.len() as int),
        ensures
            final(self).wf(),
            final(self).bytes@ == old(self).bytes@,
            final(self).irq == old(self).irq,
            final(self).queue@ == old(self).queue@.push(req),
    {
        self.queue.push(req);
    }

    /// Complete the oldest submitted request, if any: a read hands the
    /// sectors back in the returned request's payload, a write lands its
    /// payload on the disk.  Requests complete in submission order.
    pub fn on_poll(&mut self) -> (r: Option<Request>)
        requires
            old(self).wf(),
        ensures
            final(self).wf(),
            final(self).bytes.len() == old(self).bytes.len(),
            final(self).irq == old(self).irq,
            old(self).queue.len() == 0 ==> r is None && *final(self) == *old(self),
            old(self).queue.len() > 0 ==> {
                let req = old(self).queue[0];
                &&& final(self).queue@ == old(self).queue@.skip(1)
                &&& r matches Some(done) && done.block == req.block && done.sectors == req.sectors
                    && done.is_read == req.is_read
                &&& (req.is_read ==> final(self).bytes@ == old(self).bytes@
                    && (r matches Some(done) && done.data@ == old(self).bytes@.subrange(
                    req.block * SECTOR_SIZE,
                    (req.block + req.sectors) * SECTOR_SIZE,
                )))
                &&& (!req.is_read ==> final(self).bytes@ == splice(
                    old(self).bytes@,
                    req.block * SECTOR_SIZE,
                    req.data@,
                ) && (r matches Some(done) && done.data@ == req.data@))
            },
    {
        if self.queue.len() == 0 {
            return None;
        }
        let mut req = self.queue.remove(0);
        proof {
            assert(old(self).queue[0].wf(self.bytes.len() as int));
            assert((req.block as int) * (SECTOR_SIZE as int) <= (req.block + req.sectors) * (
            SECTOR_SIZE as int));
        }
        let off: usize = (req.block as usize) * (SECTOR_SIZE as usize);
        let len: usize = (req.sectors as usize) * (SECTOR_SIZE as usize);
        if req.is_read {
            req.data = sub_bytes(&self.bytes, off, len);
        } else {
            copy_range(&mut self.bytes, off, &req.data);
        }
        Some(req)
    }

    /// Submit one request and spin on its completion, yielding between
    /// checks; the queue must be otherwise idle.
    pub fn transact(&mut self, req: Request) -> (r: Request)
        requires
            old(self).wf(),
            old(self).queue.len() == 0,
            req.wf(old(self).bytes.len() as int),
        ensures
            final(self).wf(),
            final(self).queue.len() == 0,
            final(self).bytes.len() == old(self).bytes.len(),
            final(self).irq == old(self).irq,
            r.block == req.block && r.sectors == req.sectors && r.is_read == req.is_read,
            req.is_read ==> final(self).bytes@ == old(self).bytes@ && r.data@ == old(
                self,
            ).bytes@.subrange(req.block * SECTOR_SIZE, (req.block + req.sectors) * SECTOR_SIZE),
            !req.is_read ==> final(self).bytes@ == splice(
                old(self).bytes@,
                req.block * SECTOR_SIZE,
                req.data@,
            ) && r.data@ == req.data@,
    {
        let ghost greq = req;
        self.request(req);
        let mut done: Option<Request> = None;
        while done.is_none()
            invariant
                self.wf(),
                self.bytes.len() == old(self).bytes.len(),
                self.irq == old(self).irq,
                done is None ==> self.queue@ =~= seq![greq] && self.bytes@ == old(self).bytes@,
                done matches Some(d) ==> {
                    &&& self.queue.len() == 0
                    &&& d.block == greq.block && d.sectors == greq.sectors && d.is_read
                        == greq.is_read
                    &&& (greq.is_read ==> self.bytes@ == old(self).bytes@ && d.data@ == old(
                        self,
                    ).bytes@.subrange(
                        greq.block * SECTOR_SIZE,
                        (greq.block + greq.sectors) * SECTOR_SIZE,
                    ))
                    &&& (!greq.is_read ==> self.bytes@ == splice(
                        old(self).bytes@,
                        greq.block * SECTOR_SIZE,
                        greq.data@,
                    ) && d.data@ == greq.data@)
                },
            decreases self.queue.len() + (if done is None { 1int } else { 0int }),
        {
            match self.on_poll() {
                Some(d) => {
                    done = Some(d);
                },
                None => {
                    cooperative_yield();
                },
            }
        }
        done.unwrap()
    }

    /// Read a whole extent, splitting it into requests of at most
    /// `MAX_REQUEST_SECTORS` sectors, and hand back exactly its
    /// `length` bytes.
    pub fn read_extent(&mut self, ext: Extent) -> (r: Vec<u8>)
        requires
            old(self).wf(),
            old(self).queue.len() == 0,
            (ext.block + ext.spec_sectors()) * SECTOR_SIZE <= old(self).bytes.len(),
        ensures
            final(self).wf(),
            final(self).queue.len() == 0,
            final(self).bytes@ == old(self).bytes@,
            final(self).irq == old(self).irq,
            r@ == old(self).bytes@.subrange(
                ext.block * SECTOR_SIZE,
                ext.block * SECTOR_SIZE + ext.length,
            ),
    {
        proof {
            lemma_sectors_cover(ext.length as int);
        }
        let total: u64 = ext.sectors();
        let mut buf: Vec<u8> = Vec::new();
        let mut sector: u64 = 0;
        while sector < total
            invariant
                self.wf(),
                self.queue.len() == 0,
                self.bytes@ == old(self).bytes@,
                self.irq == old(self).irq,
                sector <= total,
                total == ext.spec_sectors(),
                (ext.block + total) * SECTOR_SIZE <= self.bytes.len(),
                buf@ == old(self).bytes@.subrange(
                    ext.block * SECTOR_SIZE,
                    (ext.block + sector) * SECTOR_SIZE,
                ),
            decreases total - sector,
        {
            let remaining = total - sector;
            let chunk: u64 = if remaining > MAX_REQUEST_SECTORS {
                MAX_REQUEST_SECTORS
            } else {
                remaining
            };
            let done = self.transact(
                Request { block: ext.block + sector, sectors: chunk, is_read: true, data: Vec::new() },
            );
            let mut d = done.data;
            buf.append(&mut d);
            sector = sector + chunk;
            proof {
                assert(buf@ =~= old(self).bytes@.subrange(
                    ext.block * SECTOR_SIZE,
                    (ext.block + sector) * SECTOR_SIZE,
                ));
            }
        }
        buf.truncate(ext.length as usize);
        proof {
            assert(buf@ =~= old(self).bytes@.subrange(
                ext.block * SECTOR_SIZE,
                ext.block * SECTOR_SIZE + ext.length,
            ));
        }
        buf
    }

    /// Write a whole extent's sectors from a sector-aligned payload,
    /// splitting into requests of at most `MAX_REQUEST_SECTORS` sectors.
    pub fn write_extent(&mut self, ext: Extent, data: &Vec<u8>)
        requires
            old(self).wf(),
            old(self).queue.len() == 0,
            data.len() == ext.spec_sectors() * SECTOR_SIZE,
            (ext.block + ext.spec_sectors()) * SECTOR_SIZE <= old(self).bytes.len(),
        ensures
            final(self).wf(),
            final(self).queue.len() == 0,
            final(self).bytes.len() == old(self).bytes.len(),
            final(self).irq == old(self).irq,
            final(self).bytes@ == splice(old(self).bytes@, ext.block * SECTOR_SIZE, data@),
    {
        let total: u64 = ext.sectors();
        let mut sector: u64 = 0;
        while sector < total
            invariant
                self.wf(),
                self.queue.len() == 0,
                self.bytes.len() == old(self).bytes.len(),
                self.irq == old(self).irq,
                sector <= total,
                total == ext.spec_sectors(),
                data.len() == total * SECTOR_SIZE,
                (ext.block + total) * SECTOR_SIZE <= self.bytes.len(),
                self.bytes@ == splice(
                    old(self).bytes@,
                    ext.block * SECTOR_SIZE,
                    data@.take(sector * SECTOR_SIZE),
                ),
            decreases total - sector,
        {
            let remaining = total - sector;
            let chunk: u64 = if remaining > MAX_REQUEST_SECTORS {
                MAX_REQUEST_SECTORS
            } else {
                remaining
            };
            let payload = sub_bytes(
                data,
                (sector as usize) * (SECTOR_SIZE as usize),
                (chunk as usize) * (SECTOR_SIZE as usize),
            );
            self.transact(
                Request {
                    block: ext.block + sector,
                    sectors: chunk,
                    is_read: false,
                    data: payload,
                },
            );
            sector = sector + chunk;
            proof {
                assert(self.bytes@ =~= splice(
                    old(self).bytes@,
                    ext.block * SECTOR_SIZE,
                    data@.take(sector * SECTOR_SIZE),
                ));
            }
        }
        proof {
            assert(data@.take(total * SECTOR_SIZE) =~= data@);
        }
    }
}

/// `length` bytes fit in their rounded-up sector count, with less than one
/// sector to spare.
pub proof fn lemma_sectors_cover(length: int)
    by (nonlinear_arith)
    requires
        length >= 0,
    ensures
        length <= ((length + SECTOR_SIZE - 1) / (SECTOR_SIZE as int)) * SECTOR_SIZE < length
            + SECTOR_SIZE,
{
}

} // verus!
