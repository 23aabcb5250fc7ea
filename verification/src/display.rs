use vstd::prelude::*;

use crate::resource::{clamp_to, min_nat, ResourceSeek};

verus! {

/// The framebuffer pair: writes land in the offscreen buffer and become
/// visible when it is flipped onto the screen.  Both buffers have the same
/// fixed size in bytes.
pub struct Display {
    pub onscreen: Vec<u8>,
    pub offscreen: Vec<u8>,
}

impl Display {
    pub open spec fn wf(self) -> bool {
        self.onscreen.len() == self.offscreen.len()
    }

    pub open spec fn spec_size(self) -> int {
        self.offscreen.len() as int
    }

    /// A blank display of `size` bytes.
    pub fn new(size: usize) -> (r: Display)
        ensures
            r.wf(),
            r.spec_size() == size,
            r.onscreen@ == Seq::<u8>::new(size as nat, |i: int| 0u8),
            r.offscreen@ == Seq::<u8>::new(size as nat, |i: int| 0u8),
    {
        let mut onscreen: Vec<u8> = Vec::new();
        let mut offscreen: Vec<u8> = Vec::new();
        onscreen.resize(size, 0u8);
        offscreen.resize(size, 0u8);
        proof {
            assert(onscreen@ =~= Seq::<u8>::new(size as nat, |i: int| 0u8));
            assert(offscreen@ =~= Seq::<u8>::new(size as nat, |i: int| 0u8));
        }
        Display { onscreen, offscreen }
    }

    /// Show the offscreen buffer: copy it over the visible one.
    pub fn flip(&mut self)
        requires
            old(self).wf(),
        ensures
            final(self).wf(),
            final(self).offscreen@ == old(self).offscreen@,
            final(self).onscreen@ == old(self).offscreen@,
    {
        let mut i: usize = 0;
        while i < self.offscreen.len()
            invariant
                self.wf(),
                i <= self.offscreen.len(),
                self.offscreen@ == old(self).offscreen@,
                forall|k: int| 0 <= k < i ==> self.onscreen@[k] == old(self).offscreen@[k],
            decreases self.offscreen.len() - i,
        {
            let b = self.offscreen[i];
            self.onscreen.set(i, b);
            i = i + 1;
        }
        proof {
            assert(self.onscreen@ =~= old(self).offscreen@);
        }
    }
}

/// The display scheme: it hands out the one framebuffer resource.
pub struct DisplayScheme;

/// An open handle on the framebuffer: raw pixel bytes written at a cursor
/// into the offscreen buffer.
pub struct DisplayResource {
    pub display: Box<Display>,
    pub seek: usize,
}

impl DisplayResource {
    pub open spec fn wf(self) -> bool {
        &&& self.display.wf()
        &&& self.seek <= self.display.spec_size()
    }

    /// A display cannot be duplicated.
    pub fn dup(&self) -> (r: Option<DisplayResource>)
        ensures
            r is None,
    {
        None
    }

    /// The URL this resource answers to.
    pub fn url(&self) -> (r: Vec<u8>)
        ensures
            r@ == "display://"@.map_values(|c: char| c as u8),
    {
        let mut v: Vec<u8> = Vec::new();
        v.push(('d' as u8));
        v.push(('i' as u8));
        v.push(('s' as u8));
        v.push(('p' as u8));
        v.push(('l' as u8));
        v.push(('a' as u8));
        v.push(('y' as u8));
        v.push((':' as u8));
        v.push(('/' as u8));
        v.push(('/' as u8));
        proof {
            reveal_strlit("display://");
            assert(v@ =~= "display://"@.map_values(|c: char| c as u8));
        }
        v
    }

    /// The framebuffer cannot be read back.
    pub fn read(&mut self, buf: &mut Vec<u8>) -> (r: Option<usize>)
        ensures
            r is None,
            *final(self) == *old(self),
            *final(buf) == *old(buf),
    {
        None
    }

    /// Copy raw pixel bytes to the offscreen buffer at the cursor, as many
    /// as fit, and advance the cursor by that count.
    pub fn write(&mut self, buf: &[u8]) -> (r: Option<usize>)
        requires
            old(self).wf(),
        ensures
            final(self).wf(),
            ({
                let n = min_nat(old(self).display.spec_size() - old(self).seek, buf.len() as int);
                &&& r == Some(n as usize)
                &&& final(self).seek == old(self).seek + n
                &&& final(self).display.onscreen@ == old(self).display.onscreen@
                &&& final(self).display.offscreen@ == old(self).display.offscreen@.take(
                    old(self).seek as int,
                ) + buf@.take(n) + old(self).display.offscreen@.skip(old(self).seek + n)
            }),
    {
        let avail = self.display.offscreen.len() - self.seek;
        let size = if avail < buf.len() {
            avail
        } else {
            buf.len()
        };
        let mut i: usize = 0;
        while i < size
            invariant
                self.wf(),
                i <= size,
                size == min_nat(old(self).display.spec_size() - old(self).seek, buf.len() as int),
                self.seek == old(self).seek,
                self.display.onscreen@ == old(self).display.onscreen@,
                self.display.offscreen.len() == old(self).display.offscreen.len(),
                self.seek + size <= self.display.offscreen.len(),
                size <= buf.len(),
                self.display.offscreen@ == old(self).display.offscreen@.take(
                    old(self).seek as int,
                ) + buf@.take(i as int) + old(self).display.offscreen@.skip(old(self).seek + i),
            decreases size - i,
        {
            self.display.offscreen.set(self.seek + i, buf[i]);
            i = i + 1;
            proof {
                assert(self.display.offscreen@ =~= old(self).display.offscreen@.take(
                    old(self).seek as int,
                ) + buf@.take(i as int) + old(self).display.offscreen@.skip(old(self).seek + i));
            }
        }
        proof {
            if size == 0 {
                assert(self.display.offscreen@ =~= old(self).display.offscreen@.take(
                    old(self).seek as int,
                ) + buf@.take(0) + old(self).display.offscreen@.skip(old(self).seek as int));
            }
        }
        self.seek = self.seek + size;
        Some(size)
    }

    /// Move the cursor, clamped into the buffer at both ends.
    pub fn seek(&mut self, pos: ResourceSeek) -> (r: Option<usize>)
        requires
            old(self).wf(),
        ensures
            final(self).wf(),
            final(self).display == old(self).display,
            final(self).seek == clamp_to(
                seek_target_display(*old(self), pos),
                old(self).display.spec_size(),
            ),
            r == Some(final(self).seek),
    {
        let end = self.display.offscreen.len();
        let target: i128 = match pos {
            ResourceSeek::Start(offset) => offset as i128,
            ResourceSeek::Current(offset) => self.seek as i128 + offset as i128,
            ResourceSeek::End(offset) => end as i128 + offset as i128,
        };
        let clamped: i128 = if target < 0 {
            0
        } else if target > end as i128 {
            end as i128
        } else {
            target
        };
        self.seek = clamped as usize;
        Some(self.seek)
    }

    /// Flip the display and report success.
    pub fn sync(&mut self) -> (r: bool)
        requires
            old(self).wf(),
        ensures
            final(self).wf(),
            final(self).seek == old(self).seek,
            final(self).display.offscreen@ == old(self).display.offscreen@,
            final(self).display.onscreen@ == old(self).display.offscreen@,
            r == true,
    {
        self.display.flip();
        true
    }
}

/// The unclamped position a seek asks for on the display.
pub open spec fn seek_target_display(r: DisplayResource, pos: ResourceSeek) -> int {
    match pos {
        ResourceSeek::Start(offset) => offset as int,
        ResourceSeek::Current(offset) => r.seek + offset,
        ResourceSeek::End(offset) => r.display.spec_size() + offset,
    }
}

impl DisplayScheme {
    /// The URL prefix this scheme serves.
    pub fn scheme(&self) -> (r: &'static str)
        ensures
            r@ == "display"@,
    {
        "display"
    }

    /// Open the framebuffer handed in by the platform as a resource with the
    /// cursor at the start.
    pub fn open(&mut self, display: Box<Display>) -> (r: DisplayResource)
        requires
            display.wf(),
        ensures
            r.wf(),
            r.display == display,
            r.seek == 0,
    {
        DisplayResource { display, seek: 0 }
    }
}

} // verus!
