//! Sector-aligned reading.
//!
//! A raw Windows volume handle only permits reads whose offset and length
//! are multiples of the sector size, while the NTFS parser reads arbitrary
//! byte ranges. `AlignedReader` bridges the two: it keeps a byte-granular
//! cursor and serves reads from one buffered, sector-aligned block, asking
//! its caller to load a block only when the cursor leaves the buffered one.
//! Loading a block (a seek and a read of one sector on the device) is the
//! caller's.
use vstd::prelude::*;

verus! {

/// `offset` rounded down to a multiple of `sector` (a power of two).
pub open spec fn align_down(offset: u64, sector: u64) -> u64 {
    offset & !((sector - 1) as u64)
}

proof fn lemma_align(x: u64, m: u64)
    ensures
        x & !m <= x,
        x - (x & !m) <= m,
{
    assert(x & !m <= x) by (bit_vector);
    assert(x - (x & !m) <= m) by (bit_vector);
}

/// The cursor and the buffered block of a sector-aligned reader.
#[derive(Debug)]
pub struct AlignedReader {
    /// Sector size in bytes; every block is aligned to it.
    sector: u64,
    /// The logical cursor position.
    pos: u64,
    /// The buffered block (one sector long) and where it starts.
    block: Vec<u8>,
    block_start: u64,
    /// How many bytes of the block were read (short at the end of the device).
    block_len: usize,
}

impl AlignedReader {
    #[verifier::type_invariant]
    spec fn inv(self) -> bool {
        &&& self.sector > 0
        &&& self.sector <= usize::MAX
        &&& self.block@.len() == self.sector
        &&& self.block_len <= self.sector
        &&& self.block_start + self.block_len <= u64::MAX
    }

    pub closed spec fn sector_spec(&self) -> u64 {
        self.sector
    }

    pub closed spec fn position(&self) -> u64 {
        self.pos
    }

    pub closed spec fn block_start_spec(&self) -> u64 {
        self.block_start
    }

    /// The bytes of the buffered block that were read.
    pub closed spec fn buffered(&self) -> Seq<u8> {
        self.block@.take(self.block_len as int)
    }

    /// Create a reader for a device with the given sector size (a power of
    /// two, typically 512 or 4096), at position 0 with nothing buffered.
    pub fn new(sector: u64) -> (r: Self)
        requires
            sector > 0,
            sector & ((sector - 1) as u64) == 0,
            sector <= usize::MAX,
        ensures
            r.sector_spec() == sector,
            r.position() == 0,
            r.block_start_spec() == 0,
            r.buffered() == Seq::<u8>::empty(),
    {
        let mut block: Vec<u8> = Vec::new();
        let n = sector as usize;
        while block.len() < n
            invariant
                block@.len() <= n,
                n == sector,
            decreases n - block@.len(),
        {
            block.push(0u8);
        }
        AlignedReader { sector, pos: 0, block, block_start: 0, block_len: 0 }
    }

    /// The sector size.
    pub fn sector_size(&self) -> (r: u64)
        ensures
            r == self.sector_spec(),
    {
        self.sector
    }

    /// The cursor position.
    pub fn pos(&self) -> (r: u64)
        ensures
            r == self.position(),
    {
        self.pos
    }

    /// The start of the block that must be loaded before reading at the
    /// cursor, or `None` when that block is already buffered.
    pub fn needed_block(&self) -> (r: Option<u64>)
        ensures
            r == (if self.buffered().len() > 0 && align_down(self.position(), self.sector_spec())
                == self.block_start_spec() {
                None
            } else {
                Some(align_down(self.position(), self.sector_spec()))
            }),
    {
        proof {
            use_type_invariant(self);
        }
        let start = self.pos & !(self.sector - 1);
        if self.block_len > 0 && start == self.block_start {
            None
        } else {
            Some(start)
        }
    }

    /// Buffer the block read at `start`: `data` holds at most one sector (a
    /// short read at the end of the device holds fewer).
    pub fn load_block(&mut self, start: u64, data: &[u8])
        requires
            data@.len() <= old(self).sector_spec(),
            start + data@.len() <= u64::MAX,
        ensures
            final(self).block_start_spec() == start,
            final(self).buffered() == data@,
            final(self).position() == old(self).position(),
            final(self).sector_spec() == old(self).sector_spec(),
    {
        proof {
            use_type_invariant(&*self);
        }
        let n = self.sector as usize;
        assert(n == self.sector);
        let mut block: Vec<u8> = Vec::new();
        let mut i: usize = 0;
        while i < data.len()
            invariant
                i <= data@.len() <= n,
                block@ == data@.take(i as int),
            decreases data.len() - i,
        {
            block.push(data[i]);
            assert(data@.take(i + 1) =~= data@.take(i as int).push(data@[i as int]));
            i += 1;
        }
        assert(data@.take(data@.len() as int) =~= data@);
        while block.len() < n
            invariant
                data@.len() <= block@.len() <= n,
                block@.take(data@.len() as int) == data@,
            decreases n - block@.len(),
        {
            let ghost b0 = block@;
            block.push(0u8);
            assert(block@.take(data@.len() as int) =~= b0.take(data@.len() as int));
        }
        *self = AlignedReader { sector: self.sector, pos: self.pos, block, block_start: start, block_len: data.len() };
        assert(self.block@.take(data@.len() as int) == data@);
    }

    /// Serve up to `want` bytes from the buffered block at the cursor and
    /// advance past them. Nothing is served at or past the end of the
    /// buffered data (the end of the device). The block for the cursor must
    /// be loaded.
    pub fn read(&mut self, want: usize) -> (r: Vec<u8>)
        requires
            old(self).block_start_spec() == align_down(old(self).position(), old(self).sector_spec()),
        ensures
            ({
                let off = old(self).position() - old(self).block_start_spec();
                let avail = old(self).buffered().len() - off;
                let n = if want == 0 || avail <= 0 { 0 } else if avail < want { avail } else { want as int };
                &&& r@.len() == n
                &&& forall|i: int| 0 <= i < n ==> r@[i] == #[trigger] old(self).buffered()[off + i]
                &&& final(self).position() == old(self).position() + n
                &&& final(self).buffered() == old(self).buffered()
                &&& final(self).block_start_spec() == old(self).block_start_spec()
                &&& final(self).sector_spec() == old(self).sector_spec()
            }),
    {
        proof {
            use_type_invariant(&*self);
            lemma_align(self.pos, (self.sector - 1) as u64);
        }
        let ghost buf = self.buffered();
        if want == 0 {
            return Vec::new();
        }
        let off: u64 = self.pos - self.block_start;
        if off >= self.block_len as u64 {
            return Vec::new();
        }
        let off = off as usize;
        let avail = self.block_len - off;
        let n = if avail < want { avail } else { want };
        let mut out: Vec<u8> = Vec::new();
        let mut i: usize = 0;
        while i < n
            invariant
                i <= n,
                off + n <= self.block_len <= self.block@.len(),
                buf == self.block@.take(self.block_len as int),
                out@.len() == i,
                forall|j: int| 0 <= j < i ==> out@[j] == #[trigger] buf[off + j],
            decreases n - i,
        {
            out.push(self.block[off + i]);
            i += 1;
        }
        self.pos = self.pos + n as u64;
        out
    }

    /// Move the cursor to `offset`.
    pub fn seek_start(&mut self, offset: u64) -> (r: u64)
        ensures
            r == offset,
            final(self).position() == offset,
            final(self).buffered() == old(self).buffered(),
            final(self).block_start_spec() == old(self).block_start_spec(),
            final(self).sector_spec() == old(self).sector_spec(),
    {
        proof {
            use_type_invariant(&*self);
        }
        self.pos = offset;
        offset
    }

    /// Move the cursor by `delta` bytes (as a signed offset from the current
    /// position).
    pub fn seek_current(&mut self, delta: i64) -> (r: u64)
        requires
            i64::MIN <= (old(self).position() as i64) + delta <= i64::MAX,
        ensures
            r == ((old(self).position() as i64) + delta) as u64,
            final(self).position() == r,
            final(self).buffered() == old(self).buffered(),
            final(self).block_start_spec() == old(self).block_start_spec(),
            final(self).sector_spec() == old(self).sector_spec(),
    {
        proof {
            use_type_invariant(&*self);
        }
        let p = ((self.pos as i64) + delta) as u64;
        self.pos = p;
        p
    }

    /// Move the cursor to `delta` bytes from `end`, the device's length.
    pub fn seek_end(&mut self, end: u64, delta: i64) -> (r: u64)
        requires
            i64::MIN <= (end as i64) + delta <= i64::MAX,
        ensures
            r == ((end as i64) + delta) as u64,
            final(self).position() == r,
            final(self).buffered() == old(self).buffered(),
            final(self).block_start_spec() == old(self).block_start_spec(),
            final(self).sector_spec() == old(self).sector_spec(),
    {
        proof {
            use_type_invariant(&*self);
        }
        let p = ((end as i64) + delta) as u64;
        self.pos = p;
        p
    }
}

} // verus!
