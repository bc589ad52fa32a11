//! A log-structured store of small numbered files on a raw flash-like
//! device. Files are identified by a single byte; overwriting a file appends
//! a new record, and stale records are reclaimed by a whole-device
//! compaction step when space runs out.
pub mod flash_trait;
mod compactor;
pub mod mem_flash;
pub mod model;
mod scanner;
mod store;

use crate::flash_trait::FlashTrait;
use crate::model::{erased_between, scan, slot_size, ScanOut};
use vstd::prelude::*;

verus! {

/// The four-byte record header: one encoded file-number byte and a 24-bit
/// payload length.
pub const HEADER_SIZE: usize = 4;

/// The errors a store operation can surface.
#[derive(Debug, Clone, Copy, PartialEq, Eq, Structural)]
pub enum FlashStoreError {
    /// No record exists with the requested file number.
    NotFound,
    /// The caller's read buffer is shorter than the stored payload.
    BufferTooSmall,
    /// A record's declared length runs past the end of the device.
    CorruptData,
    /// Even after discarding stale copies of the target file, the new
    /// record would not fit.
    NoSpaceLeft,
}

/// What a scan for one file number yields.
pub enum FindResult {
    /// Header offset and payload length of the file's live record.
    Found(usize, usize),
    /// No record with the number; holds the end-of-store offset.
    NotFound(usize),
}

/// A store of up to 254 files, each named by one byte, kept as append-only
/// records on a flash device. `PAGE_SIZE` is the page size the store was
/// configured for and must equal the device's.
pub struct FlashStore<Flash: FlashTrait, const PAGE_SIZE: usize> {
    pub flash: Flash,
}

impl<Flash: FlashTrait, const PAGE_SIZE: usize> FlashStore<Flash, PAGE_SIZE> {
    /// The record placement granularity of this store.
    pub open spec fn slot() -> nat {
        slot_size(Flash::word_size_spec() as nat)
    }

    /// The device bytes.
    pub open spec fn dev(self) -> Seq<u8> {
        self.flash.contents()
    }

    /// The walk of the whole device.
    pub open spec fn parsed(self) -> ScanOut {
        scan(self.dev(), Self::slot(), Flash::erased_value_spec())
    }

    /// Type validity: a valid device whose page size is the configured one.
    pub open spec fn wf(self) -> bool {
        &&& self.flash.inv()
        &&& Flash::page_size_spec() == PAGE_SIZE
    }

    /// The standing layout invariant: whenever the device parses, every
    /// byte from the end of the store onward is still erased, so the next
    /// record can be appended there.
    pub open spec fn tidy(self) -> bool {
        self.parsed().ok ==> erased_between(
            self.dev(),
            self.parsed().stop,
            self.dev().len() as nat,
            Flash::erased_value_spec(),
        )
    }

    /// The erase tallies of the device pages.
    pub open spec fn wear(self) -> Seq<nat> {
        self.flash.erase_counts()
    }

    /// Wraps a device. A word size of 3 is unsupported, and the device's
    /// page size must be the configured one.
    pub fn new(flash: Flash) -> (r: FlashStore<Flash, PAGE_SIZE>)
        requires
            flash.inv(),
            Flash::word_size_spec() != 3,
            Flash::page_size_spec() == PAGE_SIZE,
        ensures
            r.wf(),
            r.dev() == flash.contents(),
            r.wear() == flash.erase_counts(),
            r.flash == flash,
    {
        FlashStore { flash }
    }
}

/// One step of the 13/17/5 xorshift sequence.
pub open spec fn xorshift_step(s: u64) -> u64 {
    let a = s ^ (s << 13);
    let b = a ^ (a >> 17);
    b ^ (b << 5)
}

/// The starting state `rand_iter` derives from a seed.
pub open spec fn xorshift_init(seed: u32) -> u64 {
    (seed as u64) | (((seed ^ 0xDEADBEEF) as u64) << 32)
}

/// The xorshift state after `k` steps from `s`.
pub open spec fn xorshift_iterate(s: u64, k: nat) -> u64
    decreases k,
{
    if k == 0 {
        s
    } else {
        xorshift_step(xorshift_iterate(s, (k - 1) as nat))
    }
}

/// A small xorshift pseudo-random stream, used by the stress runs.
pub struct XorShift {
    state: u64,
}

impl XorShift {
    /// The current state of the stream.
    pub closed spec fn current(&self) -> u64 {
        self.state
    }

    /// Advances the stream and hands out its next value; never `None`.
    pub fn next(&mut self) -> (r: Option<u64>)
        ensures
            final(self).current() == xorshift_step(old(self).current()),
            r == Some(final(self).current()),
    {
        self.state = self.state ^ (self.state << 13);
        self.state = self.state ^ (self.state >> 17);
        self.state = self.state ^ (self.state << 5);
        Some(self.state)
    }
}

/// A pseudo-random stream seeded from `seed` and warmed up by sixteen
/// steps.
pub fn rand_iter(seed: u32) -> (r: XorShift)
    ensures
        r.current() == xorshift_iterate(xorshift_init(seed), 16),
{
    let mut iter = XorShift { state: (seed as u64) | (((seed ^ 0xDEADBEEF) as u64) << 32) };
    let mut i: usize = 0;
    while i < 16
        invariant
            i <= 16,
            iter.current() == xorshift_iterate(xorshift_init(seed), i as nat),
        decreases 16 - i,
    {
        let _ = iter.next();
        i = i + 1;
    }
    iter
}

} // verus!
