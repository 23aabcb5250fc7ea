use vstd::prelude::*;

verus! {

/// Where a seek is measured from: the start of the resource, the current
/// cursor, or the end.
#[derive(Copy, Clone, Debug)]
pub enum ResourceSeek {
    Start(usize),
    Current(isize),
    End(isize),
}

/// An in-memory byte resource: a snapshot buffer with a read cursor, used to
/// serve directory listings.
pub struct VecResource {
    pub data: Vec<u8>,
    pub seek: usize,
}

impl VecResource {
    /// The cursor never runs past the buffer.
    pub open spec fn wf(self) -> bool {
        self.seek <= self.data.len()
    }

    pub fn new(data: Vec<u8>) -> (r: VecResource)
        ensures
            r.wf(),
            r.data@ == data@,
            r.seek == 0,
    {
        VecResource { data, seek: 0 }
    }

    /// Copy bytes from the cursor into the front of `buf`, leaving the rest
    /// of `buf` as it was, and advance the cursor; the count copied is
    /// returned, and end of data reads as zero bytes.
    pub fn read(&mut self, buf: &mut Vec<u8>) -> (r: Option<usize>)
        requires
            old(self).wf(),
        ensures
            final(self).wf(),
            final(self).data@ == old(self).data@,
            ({
                let n = min_nat(old(buf).len() as int, old(self).data.len() - old(self).seek);
                &&& r == Some(n as usize)
                &&& final(self).seek == old(self).seek + n
                &&& final(buf).len() == old(buf).len()
                &&& final(buf)@ == old(self).data@.subrange(
                    old(self).seek as int,
                    old(self).seek + n,
                ) + old(buf)@.skip(n)
            }),
    {
        let mut i: usize = 0;
        while i < buf.len() && self.seek < self.data.len()
            invariant
                self.wf(),
                self.data@ == old(self).data@,
                i <= buf.len(),
                buf.len() == old(buf).len(),
                self.seek == old(self).seek + i,
                i <= old(self).data.len() - old(self).seek,
                buf@ == old(self).data@.subrange(old(self).seek as int, old(self).seek + i)
                    + old(buf)@.skip(i as int),
            decreases buf.len() - i,
        {
            let b = self.data[self.seek];
            buf.set(i, b);
            self.seek = self.seek + 1;
            i = i + 1;
            proof {
                assert(buf@ =~= old(self).data@.subrange(
                    old(self).seek as int,
                    old(self).seek + i,
                ) + old(buf)@.skip(i as int));
            }
        }
        proof {
            let n = min_nat(old(buf).len() as int, old(self).data.len() - old(self).seek);
            assert(i == n);
        }
        Some(i)
    }

    /// Move the cursor, clamping into the buffer at both ends.
    pub fn seek(&mut self, pos: ResourceSeek) -> (r: Option<usize>)
        requires
            old(self).wf(),
        ensures
            final(self).wf(),
            final(self).data@ == old(self).data@,
            final(self).seek == clamp_to(seek_target_vec(*old(self), pos), old(self).data.len() as int),
            r == Some(final(self).seek),
    {
        let end = self.data.len();
        let target: i128 = match pos {
            ResourceSeek::Start(offset) => offset as i128,
            ResourceSeek::Current(offset) => self.seek as i128 + offset as i128,
            ResourceSeek::End(offset) => end as i128 + offset as i128,
        };
        let clamped: i128 = if target < 0 {
            0
        } else if target > end as i128 {
            end as i128
        } else {
            target
        };
        self.seek = clamped as usize;
        Some(self.seek)
    }
}

/// The unclamped position a seek asks for on an in-memory resource.
pub open spec fn seek_target_vec(r: VecResource, pos: ResourceSeek) -> int {
    match pos {
        ResourceSeek::Start(offset) => offset as int,
        ResourceSeek::Current(offset) => r.seek + offset,
        ResourceSeek::End(offset) => r.data.len() + offset,
    }
}

/// Clamp a position into `[0, end]`.
pub open spec fn clamp_to(target: int, end: int) -> int {
    if target < 0 {
        0
    } else if target > end {
        end
    } else {
        target
    }
}

/// The smaller of two values.
pub open spec fn min_nat(a: int, b: int) -> int {
    if a < b {
        a
    } else {
        b
    }
}

} // verus!
