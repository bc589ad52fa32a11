//! A RAM-backed flash device with the geometry the stress runs use: 1024
//! bytes in eight 128-byte pages, erasing to 0xFF, with a selectable word
//! size. It keeps per-page erase tallies and a write-call tally so
//! callers can observe wear and write batching.
use crate::flash_trait::FlashTrait;
use crate::model::valid_geometry;
use vstd::prelude::*;

verus! {

pub struct MemFlash<const WORD_BYTES: usize> {
    data: Vec<u8>,
    page_erases: Vec<u64>,
    write_calls: u64,
    tallies: Ghost<Seq<nat>>,
}

impl<const WORD_BYTES: usize> MemFlash<WORD_BYTES> {
    /// A freshly erased device with zeroed tallies.
    pub fn new() -> (r: Self)
        requires
            valid_geometry(1024, 128, WORD_BYTES),
        ensures
            r.inv(),
            r.contents().len() == 1024,
            forall|i: int| 0 <= i < 1024 ==> r.contents()[i] == 0xFF,
            r.erase_counts() =~= Seq::new(8, |i: int| 0nat),
    {
        let mut data: Vec<u8> = Vec::new();
        let mut i: usize = 0;
        while i < 1024
            invariant
                i <= 1024,
                data@.len() == i,
                forall|k: int| 0 <= k < i ==> data@[k] == 0xFF,
            decreases 1024 - i,
        {
            data.push(0xFF);
            i = i + 1;
        }
        let mut page_erases: Vec<u64> = Vec::new();
        let mut p: usize = 0;
        while p < 8
            invariant
                p <= 8,
                page_erases@.len() == p,
                forall|k: int| 0 <= k < p ==> page_erases@[k] == 0,
            decreases 8 - p,
        {
            page_erases.push(0);
            p = p + 1;
        }
        MemFlash {
            data,
            page_erases,
            write_calls: 0,
            tallies: Ghost(Seq::new(8, |i: int| 0nat)),
        }
    }

    /// Overwrites one byte in place, bypassing the write contracts: the way
    /// a test injects corruption or a foreign image.
    pub fn poke(&mut self, address: usize, value: u8)
        requires
            old(self).inv(),
            address < 1024,
        ensures
            final(self).inv(),
            final(self).contents() == old(self).contents().update(address as int, value),
            final(self).erase_counts() == old(self).erase_counts(),
    {
        self.data[address] = value;
        proof {
            assert(self.data@ =~= old(self).data@.update(address as int, value));
        }
    }

    /// The erase tally of one page, as the hardware counter saw it.
    pub fn erase_tally(&self, page_index: usize) -> (r: u64)
        requires
            self.inv(),
            page_index < 8,
    {
        self.page_erases[page_index]
    }

    /// How many write calls the device has taken.
    pub fn write_tally(&self) -> (r: u64) {
        self.write_calls
    }
}

impl<const WORD_BYTES: usize> FlashTrait for MemFlash<WORD_BYTES> {
    closed spec fn size_spec() -> usize {
        1024
    }

    closed spec fn page_size_spec() -> usize {
        128
    }

    closed spec fn word_size_spec() -> usize {
        WORD_BYTES
    }

    closed spec fn erased_value_spec() -> u8 {
        0xFF
    }

    closed spec fn contents(&self) -> Seq<u8> {
        self.data@
    }

    closed spec fn erase_counts(&self) -> Seq<nat> {
        self.tallies@
    }

    closed spec fn inv(&self) -> bool {
        &&& valid_geometry(1024, 128, WORD_BYTES)
        &&& self.data@.len() == 1024
        &&& self.page_erases@.len() == 8
        &&& self.tallies@.len() == 8
    }

    proof fn lemma_inv(&self) {
    }

    fn size() -> (r: usize) {
        1024
    }

    fn page_size() -> (r: usize) {
        128
    }

    fn word_size() -> (r: usize) {
        WORD_BYTES
    }

    fn erased_value() -> (r: u8) {
        0xFF
    }

    fn erase_page(&mut self, address: usize) {
        let idx = address / 128;
        let mut i: usize = 0;
        while i < 128
            invariant
                i <= 128,
                address + 128 <= 1024,
                self.data@.len() == 1024,
                self.page_erases@ == old(self).page_erases@,
                self.tallies@ == old(self).tallies@,
                self.write_calls == old(self).write_calls,
                forall|k: int|
                    0 <= k < 1024 ==> self.data@[k] == (if address <= k < address + i {
                        0xFFu8
                    } else {
                        old(self).data@[k]
                    }),
            decreases 128 - i,
        {
            self.data[address + i] = 0xFF;
            i = i + 1;
        }
        let c = self.page_erases[idx];
        if c < u64::MAX {
            self.page_erases[idx] = c + 1;
        }
        proof {
            self.tallies@ = self.tallies@.update(idx as int, (self.tallies@[idx as int] + 1) as nat);
        }
    }

    fn write(&mut self, address: usize, data: &Vec<u8>) {
        proof {
            crate::model::lemma_round_up_bounds(data@.len() as nat, WORD_BYTES as nat);
        }
        let n = data.len();
        let mut i: usize = 0;
        while i < n
            invariant
                i <= n,
                n == data@.len(),
                address + n <= 1024,
                self.data@.len() == 1024,
                self.page_erases@ == old(self).page_erases@,
                self.tallies@ == old(self).tallies@,
                forall|k: int|
                    0 <= k < 1024 && !(address <= k < address + i) ==> self.data@[k] == old(
                        self,
                    ).data@[k],
                forall|k: int| address <= k < address + i ==> self.data@[k] == data@[k - address],
            decreases n - i,
        {
            self.data[address + i] = data[i];
            i = i + 1;
        }
        if self.write_calls < u64::MAX {
            self.write_calls = self.write_calls + 1;
        }
    }

    fn read(&mut self, address: usize, count: usize) -> (r: Vec<u8>) {
        let mut out: Vec<u8> = Vec::new();
        let mut i: usize = 0;
        while i < count
            invariant
                i <= count,
                address + count <= 1024,
                self.data@.len() == 1024,
                out@.len() == i,
                self == old(self),
                forall|k: int| 0 <= k < i ==> out@[k] == self.data@[address + k],
            decreases count - i,
        {
            out.push(self.data[address + i]);
            i = i + 1;
        }
        proof {
            assert(out@ =~= self.data@.subrange(address as int, address + count));
        }
        out
    }
}

} // verus!
