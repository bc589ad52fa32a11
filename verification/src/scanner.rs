//! Header codec and the single-walk scanner: locating a file's live
//! record, the end of the store, and corruption.
use crate::flash_trait::{round_up, FlashTrait};
use crate::model::{
    decode_len, decode_number, entry_size, lemma_chain_sum, lemma_geometry, lemma_keep_sum_le,
    lemma_live_mem, lemma_live_push, lemma_space_accounting, lemma_used_below_mono,
    lemma_mod_diff, lemma_mod_sum, lemma_number_codec, lemma_round_up_bounds, lemma_round_up_le,
    lemma_scan_props, lemma_slot_step, live_entry, live_rec, rec_payload, round_up_to, scan_from,
    used_below, used_space_model, valid_geometry, Rec, ScanOut,
};
use crate::{FindResult, FlashStore, FlashStoreError, HEADER_SIZE};
use vstd::prelude::*;

verus! {

impl<Flash: FlashTrait, const PAGE_SIZE: usize> FlashStore<Flash, PAGE_SIZE> {
    /// Decodes a raw 4-byte header into file number and payload length.
    pub(crate) fn parse_header(header: &Vec<u8>) -> (r: (u8, usize))
        requires
            header@.len() == 4,
        ensures
            r.0 == decode_number(header@[0], Flash::erased_value_spec()),
            r.1 == decode_len(header@[1], header@[2], header@[3]),
    {
        let number = (!header[0]) ^ Flash::erased_value();
        let size = (header[1] as usize) + 256 * (header[2] as usize) + 65536 * (header[3]
            as usize);
        (number, size)
    }

    /// Encodes a header for a record of file `number` with `size` payload
    /// bytes.
    pub(crate) fn make_header(number: u8, size: usize) -> (r: Vec<u8>)
        requires
            size <= 0xFFFFFF,
        ensures
            r@.len() == 4,
            r@[0] == crate::model::encode_number(number, Flash::erased_value_spec()),
            decode_number(r@[0], Flash::erased_value_spec()) == number,
            decode_len(r@[1], r@[2], r@[3]) == size,
    {
        proof {
            lemma_number_codec(0, number, Flash::erased_value_spec());
        }
        let b0 = (!number) ^ Flash::erased_value();
        let b1 = (size % 256) as u8;
        let b2 = ((size / 256) % 256) as u8;
        let b3 = (size / 65536) as u8;
        let mut r: Vec<u8> = Vec::new();
        r.push(b0);
        r.push(b1);
        r.push(b2);
        r.push(b3);
        proof {
            assert(b1 + 256 * (b2 as int) + 65536 * (b3 as int) == size) by (nonlinear_arith)
                requires
                    0 <= size <= 0xFFFFFF,
                    b1 == size as int % 256,
                    b2 == (size as int / 256) % 256,
                    b3 == size as int / 65536,
            ;
        }
        r
    }

    /// Rounds a byte count up to the next slot boundary.
    pub(crate) fn round(offset: usize) -> (r: usize)
        requires
            1 <= offset,
            offset <= 0x2000_0000,
            valid_geometry(Flash::size_spec(), Flash::page_size_spec(), Flash::word_size_spec()),
        ensures
            r == round_up_to(offset as nat, Self::slot()),
            offset <= r < offset + Self::slot(),
            r as int % Self::slot() as int == 0,
    {
        proof {
            lemma_geometry(Flash::size_spec(), Flash::page_size_spec(), Flash::word_size_spec());
            lemma_round_up_bounds(offset as nat, Self::slot());
        }
        let word = Flash::word_size();
        let granularity = if word > HEADER_SIZE {
            word
        } else {
            HEADER_SIZE
        };
        round_up(offset, granularity)
    }

    /// Reads and decodes the 4-byte header at `position`.
    pub(crate) fn read_header(&mut self, position: usize) -> (r: Result<
        (u8, usize),
        FlashStoreError,
    >)
        requires
            old(self).wf(),
            position + 4 <= Flash::size_spec(),
        ensures
            final(self).wf(),
            final(self).dev() == old(self).dev(),
            final(self).wear() == old(self).wear(),
            ({
                let f = old(self).dev();
                let e = Flash::erased_value_spec();
                r matches Ok(h) && h.0 == decode_number(f[position as int], e) && h.1
                    == decode_len(
                    f[position as int + 1],
                    f[position as int + 2],
                    f[position as int + 3],
                )
            }),
    {
        proof {
            self.flash.lemma_inv();
        }
        let header = self.flash.read(position, 4);
        Ok(Self::parse_header(&header))
    }

    /// One walk of the device. With `Some(n)` it reports the live record of
    /// file `n` (or the end of the store if there is none); with `None` it
    /// only finds the end of the store. A record overrunning the device
    /// reports corrupt data.
    pub(crate) fn find(&mut self, file_number: Option<u8>) -> (r: Result<
        FindResult,
        FlashStoreError,
    >)
        requires
            old(self).wf(),
        ensures
            final(self).wf(),
            final(self).dev() == old(self).dev(),
            final(self).wear() == old(self).wear(),
            ({
                let sc = old(self).parsed();
                let n = match file_number {
                    Some(v) => v,
                    None => 0xFF,
                };
                &&& (!sc.ok <==> r == Err::<FindResult, FlashStoreError>(
                    FlashStoreError::CorruptData,
                ))
                &&& (sc.ok ==> (match live_rec(sc.recs, n) {
                    Some(rec) => r == Ok::<FindResult, FlashStoreError>(
                        FindResult::Found(rec.off as usize, rec.len as usize),
                    ),
                    None => r == Ok::<FindResult, FlashStoreError>(
                        FindResult::NotFound(sc.stop as usize),
                    ),
                }))
            }),
    {
        let file_number = match file_number {
            Some(v) => v,
            None => 0xFF,
        };
        let size = Flash::size();
        let ghost f = self.dev();
        let ghost slot = Self::slot();
        let ghost e = Flash::erased_value_spec();
        let ghost w0 = self.wear();
        let ghost total = old(self).parsed();
        proof {
            self.flash.lemma_inv();
            lemma_geometry(Flash::size_spec(), Flash::page_size_spec(), Flash::word_size_spec());
            vstd::arithmetic::div_mod::lemma_small_mod(0, slot);
        }

        let mut position: usize = 0;
        let mut found: Option<(usize, usize)> = None;
        let ghost mut prefix: Seq<Rec> = Seq::empty();

        while position < size
            invariant_except_break
                self.wf(),
                self.dev() == f,
                self.wear() == w0,
                f == old(self).dev(),
                w0 == old(self).wear(),
                size == Flash::size_spec(),
                f.len() == size,
                4 <= slot,
                slot == Self::slot(),
                e == Flash::erased_value_spec(),
                total == old(self).parsed(),
                f.len() as int % slot as int == 0,
                size <= 0x1000_0000,
                position <= size,
                position as int % slot as int == 0,
                valid_geometry(
                    Flash::size_spec(),
                    Flash::page_size_spec(),
                    Flash::word_size_spec(),
                ),
                scan_from(f, position as nat, slot, e).ok == total.ok,
                total.ok ==> total.recs == prefix + scan_from(f, position as nat, slot, e).recs,
                total.ok ==> total.stop == scan_from(f, position as nat, slot, e).stop,
                match found {
                    Some((p, s)) => p < size && s <= 0xFFFFFF && live_rec(prefix, file_number)
                        == Some(Rec { off: p as nat, num: file_number, len: s as nat }),
                    None => live_rec(prefix, file_number) is None,
                },
            ensures
                self.wf(),
                self.dev() == f,
                self.wear() == w0,
                position <= size,
                total.ok,
                total.recs == prefix + scan_from(f, position as nat, slot, e).recs,
                scan_from(f, position as nat, slot, e) == (ScanOut {
                    ok: true,
                    recs: Seq::<Rec>::empty(),
                    stop: position as nat,
                }),
                total.stop == position,
                match found {
                    Some((p, s)) => p < size && s <= 0xFFFFFF && live_rec(prefix, file_number)
                        == Some(Rec { off: p as nat, num: file_number, len: s as nat }),
                    None => live_rec(prefix, file_number) is None,
                },
            decreases size - position,
        {
            proof {
                lemma_slot_step(position as nat, size as nat, slot);
            }
            let (number, rsize) = self.read_header(position)?;
            proof {
                lemma_number_codec(f[position as int], 0, e);
            }

            if number == 0xFF {
                proof {
                    assert(scan_from(f, position as nat, slot, e).recs =~= Seq::<Rec>::empty());
                }
                break ;
            }
            let ghost r_g = Rec { off: position as nat, num: number, len: rsize as nat };

            if number == file_number {
                found = Some((position, rsize));
            }
            if position + HEADER_SIZE + rsize > size {
                return Err(FlashStoreError::CorruptData);
            }
            proof {
                lemma_mod_diff(size as int, position as int, slot as int);
                lemma_round_up_le((4 + rsize) as nat, (size - position) as nat, slot);
                lemma_round_up_bounds((4 + rsize) as nat, slot);
                lemma_mod_sum(position as int, entry_size(rsize as nat, slot) as int, slot as int);
            }
            let step = Self::round(HEADER_SIZE + rsize);
            proof {
                let sub = scan_from(f, (position + step) as nat, slot, e);
                if sub.ok {
                    assert(total.recs == (prefix + (seq![r_g] + sub.recs)));
                    assert(prefix + (seq![r_g] + sub.recs) =~= prefix.push(r_g) + sub.recs);
                }
                lemma_live_push(prefix, r_g, file_number);
                prefix = prefix.push(r_g);
            }
            position = position + step;
        }
        proof {
            assert(total.recs =~= prefix);
        }

        match found {
            Some((found_at_offset, size)) => Ok(FindResult::Found(found_at_offset, size)),
            None => Ok(FindResult::NotFound(position)),
        }
    }

    /// The offset right after the last record: where the next record will
    /// be appended.
    pub(crate) fn end_of_store(&mut self) -> (r: Result<usize, FlashStoreError>)
        requires
            old(self).wf(),
        ensures
            final(self).wf(),
            final(self).dev() == old(self).dev(),
            final(self).wear() == old(self).wear(),
            ({
                let sc = old(self).parsed();
                &&& (!sc.ok <==> r == Err::<usize, FlashStoreError>(FlashStoreError::CorruptData))
                &&& (sc.ok ==> r == Ok::<usize, FlashStoreError>(sc.stop as usize))
            }),
    {
        proof {
            self.flash.lemma_inv();
            lemma_geometry(Flash::size_spec(), Flash::page_size_spec(), Flash::word_size_spec());
            lemma_scan_props(old(self).dev(), 0, Self::slot(), Flash::erased_value_spec());
            lemma_live_mem(old(self).parsed().recs, 0xFF);
        }
        match self.find(None)? {
            FindResult::NotFound(position) => Ok(position),
            FindResult::Found(_, _) => {
                proof {
                    assert(false);
                }
                Err(FlashStoreError::CorruptData)
            },
        }
    }

    /// The bytes the store would still occupy after discarding every stale
    /// record and every record of file `file_number` (pass 0xFF to exclude
    /// nothing): the sum of the slot-rounded sizes of the live records of
    /// all other files.
    pub(crate) fn used_space_except(&mut self, file_number: u8) -> (r: Result<
        usize,
        FlashStoreError,
    >)
        requires
            old(self).wf(),
        ensures
            final(self).wf(),
            final(self).dev() == old(self).dev(),
            final(self).wear() == old(self).wear(),
            ({
                let sc = old(self).parsed();
                &&& (!sc.ok <==> r == Err::<usize, FlashStoreError>(FlashStoreError::CorruptData))
                &&& (sc.ok ==> r == Ok::<usize, FlashStoreError>(
                    used_space_model(sc.recs, Self::slot(), file_number) as usize,
                ))
            }),
    {
        let size = Flash::size();
        let ghost f = self.dev();
        let ghost slot = Self::slot();
        let ghost e = Flash::erased_value_spec();
        let ghost w0 = self.wear();
        let ghost total = old(self).parsed();
        proof {
            self.flash.lemma_inv();
            lemma_geometry(Flash::size_spec(), Flash::page_size_spec(), Flash::word_size_spec());
            vstd::arithmetic::div_mod::lemma_small_mod(0, slot);
        }

        let mut sizes: Vec<usize> = Vec::new();
        let mut z: usize = 0;
        while z < 255
            invariant
                z <= 255,
                sizes@.len() == z,
                forall|m: int| 0 <= m < z ==> sizes@[m] == 0,
            decreases 255 - z,
        {
            sizes.push(0);
            z = z + 1;
        }
        proof {
            assert forall|m: u8| true implies live_rec(Seq::<Rec>::empty(), m) is None by {}
        }

        let mut position: usize = 0;
        let ghost mut prefix: Seq<Rec> = Seq::empty();

        while position < size
            invariant_except_break
                self.wf(),
                self.dev() == f,
                self.wear() == w0,
                f == old(self).dev(),
                w0 == old(self).wear(),
                size == Flash::size_spec(),
                f.len() == size,
                4 <= slot,
                slot == Self::slot(),
                e == Flash::erased_value_spec(),
                total == old(self).parsed(),
                f.len() as int % slot as int == 0,
                size <= 0x1000_0000,
                position <= size,
                position as int % slot as int == 0,
                valid_geometry(
                    Flash::size_spec(),
                    Flash::page_size_spec(),
                    Flash::word_size_spec(),
                ),
                scan_from(f, position as nat, slot, e).ok == total.ok,
                total.ok ==> total.recs == prefix + scan_from(f, position as nat, slot, e).recs,
                sizes@.len() == 255,
                forall|m: int|
                    0 <= m < 255 ==> sizes@[m] == live_entry(prefix, m as u8, slot),
            ensures
                self.wf(),
                self.dev() == f,
                self.wear() == w0,
                total.ok,
                total.recs == prefix,
                sizes@.len() == 255,
                forall|m: int|
                    0 <= m < 255 ==> sizes@[m] == live_entry(prefix, m as u8, slot),
            decreases size - position,
        {
            proof {
                lemma_slot_step(position as nat, size as nat, slot);
            }
            let (number, rsize) = self.read_header(position)?;
            proof {
                lemma_number_codec(f[position as int], 0, e);
            }

            if number == 0xFF {
                proof {
                    assert(scan_from(f, position as nat, slot, e).recs =~= Seq::<Rec>::empty());
                    assert(total.recs =~= prefix);
                }
                break ;
            }
            let ghost r_g = Rec { off: position as nat, num: number, len: rsize as nat };

            if position + HEADER_SIZE + rsize > size {
                return Err(FlashStoreError::CorruptData);
            }
            proof {
                lemma_mod_diff(size as int, position as int, slot as int);
                lemma_round_up_le((4 + rsize) as nat, (size - position) as nat, slot);
                lemma_round_up_bounds((4 + rsize) as nat, slot);
                lemma_mod_sum(position as int, entry_size(rsize as nat, slot) as int, slot as int);
            }
            let step = Self::round(HEADER_SIZE + rsize);
            sizes[number as usize] = step;
            proof {
                let sub = scan_from(f, (position + step) as nat, slot, e);
                if sub.ok {
                    assert(total.recs == (prefix + (seq![r_g] + sub.recs)));
                    assert(prefix + (seq![r_g] + sub.recs) =~= prefix.push(r_g) + sub.recs);
                }
                assert forall|m: u8| true implies live_rec(prefix.push(r_g), m) == (if m == number {
                    Some(r_g)
                } else {
                    live_rec(prefix, m)
                }) by {
                    lemma_live_push(prefix, r_g, m);
                }
                prefix = prefix.push(r_g);
            }
            position = position + step;
        }
        proof {
            if position >= size {
                assert(scan_from(f, position as nat, slot, e).recs =~= Seq::<Rec>::empty());
                assert(total.recs =~= prefix);
            }
        }

        if file_number != 0xFF {
            sizes[file_number as usize] = 0;
        }

        let ghost recs = total.recs;
        proof {
            lemma_scan_props(f, 0, slot, e);
            if recs.len() > 0 {
                lemma_chain_sum(recs, slot);
            }
            lemma_keep_sum_le(recs, file_number, slot);
            lemma_space_accounting(recs, slot, file_number);
            assert(used_space_model(recs, slot, file_number) <= size);
        }

        let mut total_used: usize = 0;
        let mut k: usize = 0;
        while k < 255
            invariant
                k <= 255,
                sizes@.len() == 255,
                size == Flash::size_spec(),
                slot == Self::slot(),
                recs == total.recs,
                total.ok,
                total == old(self).parsed(),
                forall|m: int|
                    0 <= m < 255 ==> sizes@[m] == (if m as u8 != file_number {
                        live_entry(recs, m as u8, slot)
                    } else {
                        0
                    }),
                total_used == used_below(recs, slot, file_number, k as nat),
                used_space_model(recs, slot, file_number) <= size,
            decreases 255 - k,
        {
            proof {
                lemma_used_below_mono(recs, slot, file_number, (k + 1) as nat, 255);
            }
            total_used = total_used + sizes[k];
            k = k + 1;
        }
        Ok(total_used)
    }

    /// A 255-entry table mapping each file number to the offset of its
    /// live record, with `usize::MAX` marking absent files.
    pub(crate) fn generate_file_index(&mut self) -> (r: Result<Vec<usize>, FlashStoreError>)
        requires
            old(self).wf(),
        ensures
            final(self).wf(),
            final(self).dev() == old(self).dev(),
            final(self).wear() == old(self).wear(),
            ({
                let sc = old(self).parsed();
                &&& (!sc.ok <==> r == Err::<Vec<usize>, FlashStoreError>(
                    FlashStoreError::CorruptData,
                ))
                &&& (sc.ok ==> (r matches Ok(ix) && ix@.len() == 255 && (forall|m: int|
                    0 <= m < 255 ==> ix@[m] == (match live_rec(sc.recs, m as u8) {
                        Some(rec) => rec.off as usize,
                        None => usize::MAX,
                    }))))
            }),
    {
        let size = Flash::size();
        let ghost f = self.dev();
        let ghost slot = Self::slot();
        let ghost e = Flash::erased_value_spec();
        let ghost w0 = self.wear();
        let ghost total = old(self).parsed();
        proof {
            self.flash.lemma_inv();
            lemma_geometry(Flash::size_spec(), Flash::page_size_spec(), Flash::word_size_spec());
            vstd::arithmetic::div_mod::lemma_small_mod(0, slot);
        }

        let mut positions: Vec<usize> = Vec::new();
        let mut z: usize = 0;
        while z < 255
            invariant
                z <= 255,
                positions@.len() == z,
                forall|m: int| 0 <= m < z ==> positions@[m] == usize::MAX,
            decreases 255 - z,
        {
            positions.push(usize::MAX);
            z = z + 1;
        }

        let mut position: usize = 0;
        let ghost mut prefix: Seq<Rec> = Seq::empty();

        while position < size
            invariant_except_break
                self.wf(),
                self.dev() == f,
                self.wear() == w0,
                f == old(self).dev(),
                w0 == old(self).wear(),
                size == Flash::size_spec(),
                f.len() == size,
                4 <= slot,
                slot == Self::slot(),
                e == Flash::erased_value_spec(),
                total == old(self).parsed(),
                f.len() as int % slot as int == 0,
                size <= 0x1000_0000,
                position <= size,
                position as int % slot as int == 0,
                valid_geometry(
                    Flash::size_spec(),
                    Flash::page_size_spec(),
                    Flash::word_size_spec(),
                ),
                scan_from(f, position as nat, slot, e).ok == total.ok,
                total.ok ==> total.recs == prefix + scan_from(f, position as nat, slot, e).recs,
                positions@.len() == 255,
                forall|m: int|
                    0 <= m < 255 ==> positions@[m] == (match live_rec(prefix, m as u8) {
                        Some(rec) => rec.off as usize,
                        None => usize::MAX,
                    }),
                forall|i: int|
                    0 <= i < prefix.len() ==> (#[trigger] prefix[i]).off < size,
            ensures
                self.wf(),
                self.dev() == f,
                self.wear() == w0,
                total.ok,
                total.recs == prefix,
                positions@.len() == 255,
                forall|m: int|
                    0 <= m < 255 ==> positions@[m] == (match live_rec(prefix, m as u8) {
                        Some(rec) => rec.off as usize,
                        None => usize::MAX,
                    }),
            decreases size - position,
        {
            proof {
                lemma_slot_step(position as nat, size as nat, slot);
            }
            let (number, rsize) = self.read_header(position)?;
            proof {
                lemma_number_codec(f[position as int], 0, e);
            }

            if number == 0xFF {
                proof {
                    assert(scan_from(f, position as nat, slot, e).recs =~= Seq::<Rec>::empty());
                    assert(total.recs =~= prefix);
                }
                break ;
            }
            let ghost r_g = Rec { off: position as nat, num: number, len: rsize as nat };

            if position + HEADER_SIZE + rsize > size {
                return Err(FlashStoreError::CorruptData);
            }
            proof {
                lemma_mod_diff(size as int, position as int, slot as int);
                lemma_round_up_le((4 + rsize) as nat, (size - position) as nat, slot);
                lemma_round_up_bounds((4 + rsize) as nat, slot);
                lemma_mod_sum(position as int, entry_size(rsize as nat, slot) as int, slot as int);
            }
            positions[number as usize] = position;
            let step = Self::round(HEADER_SIZE + rsize);
            proof {
                let sub = scan_from(f, (position + step) as nat, slot, e);
                if sub.ok {
                    assert(total.recs == (prefix + (seq![r_g] + sub.recs)));
                    assert(prefix + (seq![r_g] + sub.recs) =~= prefix.push(r_g) + sub.recs);
                }
                assert forall|m: u8| true implies live_rec(prefix.push(r_g), m) == (if m == number {
                    Some(r_g)
                } else {
                    live_rec(prefix, m)
                }) by {
                    lemma_live_push(prefix, r_g, m);
                }
                prefix = prefix.push(r_g);
            }
            position = position + step;
        }
        proof {
            if position >= size {
                assert(scan_from(f, position as nat, slot, e).recs =~= Seq::<Rec>::empty());
                assert(total.recs =~= prefix);
            }
        }
        Ok(positions)
    }

    /// Reads the current content of file `file_number` into the front of
    /// `buffer`, reporting how many bytes the file holds. The file number
    /// 0xFF is reserved and illegal here.
    pub fn read_file(&mut self, file_number: u8, buffer: &mut Vec<u8>) -> (r: Result<
        usize,
        FlashStoreError,
    >)
        requires
            old(self).wf(),
            file_number != 0xFF,
        ensures
            final(self).wf(),
            final(self).dev() == old(self).dev(),
            final(self).wear() == old(self).wear(),
            final(buffer)@.len() == old(buffer)@.len(),
            ({
                let sc = old(self).parsed();
                if !sc.ok {
                    r == Err::<usize, FlashStoreError>(FlashStoreError::CorruptData)
                        && final(buffer)@ == old(buffer)@
                } else {
                    match live_rec(sc.recs, file_number) {
                        None => r == Err::<usize, FlashStoreError>(FlashStoreError::NotFound)
                            && final(buffer)@ == old(buffer)@,
                        Some(rec) => {
                            if old(buffer)@.len() < rec.len {
                                r == Err::<usize, FlashStoreError>(FlashStoreError::BufferTooSmall)
                                    && final(buffer)@ == old(buffer)@
                            } else {
                                r == Ok::<usize, FlashStoreError>(rec.len as usize)
                                    && final(buffer)@ == rec_payload(old(self).dev(), rec) + old(
                                    buffer,
                                )@.skip(rec.len as int)
                            }
                        },
                    }
                }
            }),
    {
        proof {
            self.flash.lemma_inv();
            lemma_geometry(Flash::size_spec(), Flash::page_size_spec(), Flash::word_size_spec());
            lemma_scan_props(old(self).dev(), 0, Self::slot(), Flash::erased_value_spec());
            lemma_live_mem(old(self).parsed().recs, file_number);
        }
        match self.find(Some(file_number))? {
            FindResult::Found(position, size) => {
                if buffer.len() < size {
                    return Err(FlashStoreError::BufferTooSmall);
                }
                let payload = self.flash.read(position + HEADER_SIZE, size);
                let mut i: usize = 0;
                while i < size
                    invariant
                        i <= size,
                        size <= buffer@.len(),
                        payload@.len() == size,
                        buffer@.len() == old(buffer)@.len(),
                        forall|k: int| 0 <= k < i ==> buffer@[k] == payload@[k],
                        forall|k: int| i <= k < buffer@.len() ==> buffer@[k] == old(buffer)@[k],
                    decreases size - i,
                {
                    buffer[i] = payload[i];
                    i = i + 1;
                }
                proof {
                    let rec = live_rec(old(self).parsed().recs, file_number).unwrap();
                    assert(buffer@ =~= rec_payload(old(self).dev(), rec) + old(buffer)@.skip(
                        rec.len as int,
                    ));
                }
                Ok(size)
            },
            FindResult::NotFound(_) => Err(FlashStoreError::NotFound),
        }
    }
}

} // verus!
