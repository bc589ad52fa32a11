//! Device initialization and the append writer: a new record lands at the
//! end of the store, spliced into whole write-words.
use crate::flash_trait::FlashTrait;
use crate::model::{
    entry_size, erased_between, keep_recs, lemma_chain_sum, lemma_geometry, lemma_keep_sum_le,
    lemma_live_keep, lemma_live_mem, lemma_live_parallel, lemma_live_push, lemma_mod_diff,
    lemma_mod_sum, lemma_mod_trans, lemma_number_codec, lemma_round_up_bounds, lemma_round_up_le,
    lemma_round_up_shift, lemma_scan_layout, lemma_scan_props, lemma_space_accounting, live_rec,
    preserves_file, rec_matches, rec_next, rec_payload, round_up_to, used_space_model, Rec,
    ScanOut,
};
use crate::{FlashStore, FlashStoreError, HEADER_SIZE};
use vstd::prelude::*;

verus! {

/// A copy of `v[from..to]`.
pub(crate) fn sub_vec(v: &Vec<u8>, from: usize, to: usize) -> (r: Vec<u8>)
    requires
        from <= to <= v@.len(),
    ensures
        r@ == v@.subrange(from as int, to as int),
{
    let mut r: Vec<u8> = Vec::new();
    let mut i: usize = from;
    while i < to
        invariant
            from <= i <= to <= v@.len(),
            r@.len() == i - from,
            forall|k: int| 0 <= k < i - from ==> r@[k] == v@[from + k],
        decreases to - i,
    {
        r.push(v[i]);
        i = i + 1;
    }
    proof {
        assert(r@ =~= v@.subrange(from as int, to as int));
    }
    r
}

impl<Flash: FlashTrait, const PAGE_SIZE: usize> FlashStore<Flash, PAGE_SIZE> {
    /// Erases every page: afterwards the store is empty and every file
    /// reads as absent, whatever the device held before.
    pub fn initialize_flash(&mut self)
        requires
            old(self).wf(),
        ensures
            final(self).wf(),
            final(self).tidy(),
            final(self).dev().len() == old(self).dev().len(),
            forall|i: int|
                0 <= i < final(self).dev().len() ==> final(self).dev()[i]
                    == Flash::erased_value_spec(),
            final(self).parsed() == (ScanOut { ok: true, recs: Seq::<Rec>::empty(), stop: 0nat }),
            forall|n: u8| live_rec(final(self).parsed().recs, n) is None,
            final(self).wear().len() == old(self).wear().len(),
            forall|p: int|
                0 <= p < final(self).wear().len() ==> final(self).wear()[p] == old(self).wear()[p]
                    + 1,
    {
        let ghost w0 = self.wear();
        let size = Flash::size();
        let page = Flash::page_size();
        proof {
            self.flash.lemma_inv();
            lemma_geometry(Flash::size_spec(), Flash::page_size_spec(), Flash::word_size_spec());
        }
        let mut address: usize = 0;
        let mut pages_done: usize = 0;
        while address < size
            invariant
                self.wf(),
                w0 == old(self).wear(),
                size == Flash::size_spec(),
                page == Flash::page_size_spec(),
                0 < page <= size,
                size as int % page as int == 0,
                address == pages_done * page,
                address <= size,
                self.dev().len() == size,
                self.wear().len() == w0.len(),
                w0.len() == size as int / page as int,
                forall|i: int| 0 <= i < address ==> self.dev()[i] == Flash::erased_value_spec(),
                forall|i: int| address <= i < size ==> self.dev()[i] == old(self).dev()[i],
                forall|p: int| 0 <= p < pages_done ==> self.wear()[p] == w0[p] + 1,
                forall|p: int| pages_done <= p < w0.len() ==> self.wear()[p] == w0[p],
            decreases size - address,
        {
            proof {
                vstd::arithmetic::div_mod::lemma_mod_multiples_basic(pages_done as int, page as int);
                vstd::arithmetic::div_mod::lemma_div_by_multiple(pages_done as int, page as int);
                lemma_mod_diff(size as int, address as int, page as int);
                if size - address < page {
                    vstd::arithmetic::div_mod::lemma_small_mod(
                        (size - address) as nat,
                        page as nat,
                    );
                }
                assert(pages_done < w0.len()) by (nonlinear_arith)
                    requires
                        address == pages_done * page,
                        address + page <= size,
                        page >= 1,
                        w0.len() == size as int / page as int,
                        size as int % page as int == 0,
                ;
            }
            self.flash.erase_page(address);
            proof {
                assert((pages_done + 1) * page == pages_done * page + page) by (nonlinear_arith);
            }
            address = address + page;
            pages_done = pages_done + 1;
        }
        proof {
            vstd::arithmetic::div_mod::lemma_div_by_multiple(pages_done as int, page as int);
            assert(pages_done == w0.len());
            assert(self.dev()[0] == Flash::erased_value_spec());
            assert(self.parsed() == (ScanOut { ok: true, recs: Seq::<Rec>::empty(), stop: 0nat }));
        }
    }

    /// The bytes the live records occupy, padding included.
    pub fn used_space(&mut self) -> (r: Result<usize, FlashStoreError>)
        requires
            old(self).wf(),
        ensures
            final(self).wf(),
            final(self).dev() == old(self).dev(),
            final(self).wear() == old(self).wear(),
            ({
                let sc = old(self).parsed();
                &&& (!sc.ok <==> r == Err::<usize, FlashStoreError>(FlashStoreError::CorruptData))
                &&& (sc.ok ==> r == Ok::<usize, FlashStoreError>(
                    used_space_model(sc.recs, Self::slot(), 0xFF) as usize,
                ))
            }),
    {
        self.used_space_except(0xFF)
    }

    /// Writes the record for `data` at `end`, the end of the store,
    /// honoring the word-write granularity: with words over 4 bytes the
    /// header shares its first word with the front of the payload.
    #[verifier::rlimit(100)]
    pub(crate) fn append(&mut self, file_number: u8, data: &Vec<u8>, end: usize)
        requires
            old(self).wf(),
            file_number != 0xFF,
            data@.len() <= 0xFFFFFF,
            old(self).parsed().ok,
            old(self).parsed().stop == end,
            end + 4 + data@.len() <= Flash::size_spec(),
            old(self).tidy(),
        ensures
            final(self).wf(),
            final(self).tidy(),
            final(self).wear() == old(self).wear(),
            final(self).dev().len() == old(self).dev().len(),
            final(self).dev().subrange(0, end as int) == old(self).dev().subrange(0, end as int),
            final(self).parsed() == (ScanOut {
                ok: true,
                recs: old(self).parsed().recs.push(
                    Rec { off: end as nat, num: file_number, len: data@.len() as nat },
                ),
                stop: (end + entry_size(data@.len() as nat, Self::slot())) as nat,
            }),
            rec_payload(
                final(self).dev(),
                Rec { off: end as nat, num: file_number, len: data@.len() as nat },
            ) == data@,
    {
        let ghost f0 = self.dev();
        let ghost slot = Self::slot();
        let ghost e = Flash::erased_value_spec();
        let ghost rs0 = old(self).parsed().recs;
        let ghost bnew = Rec { off: end as nat, num: file_number, len: data@.len() as nat };
        let ghost entry = entry_size(data@.len() as nat, slot);
        let size = Flash::size();
        proof {
            self.flash.lemma_inv();
            lemma_geometry(Flash::size_spec(), Flash::page_size_spec(), Flash::word_size_spec());
            lemma_scan_props(f0, 0, slot, e);
            lemma_round_up_bounds((4 + data@.len()) as nat, slot);
            lemma_mod_diff(size as int, end as int, slot as int);
            lemma_round_up_le((4 + data@.len()) as nat, (size - end) as nat, slot);
            lemma_mod_trans(end as int, slot as int, Flash::word_size_spec() as int);
            assert(end + entry <= size);
            assert(end as int % Flash::word_size_spec() as int == 0);
        }
        let header = Self::make_header(file_number, data.len());
        let word = Flash::word_size();

        if word > HEADER_SIZE {
            // slot == word: the header is not a whole word, so it shares
            // its word with the front of the payload.
            let mut word_buffer: Vec<u8> = Vec::new();
            word_buffer.push(header[0]);
            word_buffer.push(header[1]);
            word_buffer.push(header[2]);
            word_buffer.push(header[3]);
            let prefix_len = if data.len() < word - HEADER_SIZE {
                data.len()
            } else {
                word - HEADER_SIZE
            };
            let mut i: usize = 0;
            while i < prefix_len
                invariant
                    i <= prefix_len,
                    prefix_len <= data@.len(),
                    word_buffer@.len() == 4 + i,
                    word_buffer@[0] == header@[0],
                    word_buffer@[1] == header@[1],
                    word_buffer@[2] == header@[2],
                    word_buffer@[3] == header@[3],
                    header@.len() == 4,
                    forall|k: int| 0 <= k < i ==> word_buffer@[4 + k] == data@[k],
                decreases prefix_len - i,
            {
                word_buffer.push(data[i]);
                i = i + 1;
            }
            if data.len() + HEADER_SIZE <= word {
                // Everything fits in one word: pad it out and issue a
                // single write.
                while word_buffer.len() < word
                    invariant
                        4 + data@.len() <= word_buffer@.len() <= word,
                        word_buffer@[0] == header@[0],
                        word_buffer@[1] == header@[1],
                        word_buffer@[2] == header@[2],
                        word_buffer@[3] == header@[3],
                        header@.len() == 4,
                        forall|k: int| 0 <= k < data@.len() ==> word_buffer@[4 + k] == data@[k],
                    decreases word - word_buffer.len(),
                {
                    word_buffer.push(Flash::erased_value());
                }
                proof {
                    assert(word == slot);
                    lemma_round_up_le(word as nat, word as nat, word as nat);
                    lemma_round_up_bounds(word as nat, word as nat);
                    // entry is a multiple of the word in [4 + len, 2 word):
                    // it can only be the word itself.
                    if entry < word {
                        vstd::arithmetic::div_mod::lemma_small_mod(entry, word as nat);
                    }
                    if entry > word {
                        lemma_mod_diff(entry as int, word as int, word as int);
                        vstd::arithmetic::div_mod::lemma_small_mod(
                            (entry - word) as nat,
                            word as nat,
                        );
                        vstd::arithmetic::div_mod::lemma_mod_self_0(word as int);
                        assert(false);
                    }
                    assert(entry == word);
                }
                self.flash.write(end, &word_buffer);
            } else {
                proof {
                    assert(word == slot);
                    lemma_round_up_le(word as nat, word as nat, word as nat);
                    lemma_round_up_bounds(word as nat, word as nat);
                    lemma_round_up_shift(
                        word as nat,
                        (data@.len() - (word - 4)) as nat,
                        word as nat,
                    );
                    vstd::arithmetic::div_mod::lemma_mod_self_0(word as int);
                    lemma_mod_sum(end as int, word as int, word as int);
                }
                self.flash.write(end, &word_buffer);
                let tail = sub_vec(data, word - HEADER_SIZE, data.len());
                self.flash.write(end + word, &tail);
            }
        } else {
            // slot == 4 == a whole number of words: header and payload can
            // be written separately.
            proof {
                assert(slot == 4);
                assert(4 as int % word as int == 0);
                lemma_round_up_le(4, 4, word as nat);
                lemma_round_up_bounds(4, word as nat);
                lemma_round_up_shift(4, data@.len() as nat, 4);
                lemma_round_up_bounds(data@.len() as nat, 4);
                lemma_round_up_bounds(data@.len() as nat, word as nat);
                lemma_mod_trans(
                    round_up_to(data@.len() as nat, 4) as int,
                    4,
                    word as int,
                );
                lemma_round_up_le(
                    data@.len() as nat,
                    round_up_to(data@.len() as nat, 4),
                    word as nat,
                );
                lemma_mod_sum(end as int, 4, word as int);
            }
            self.flash.write(end, &header);
            if data.len() > 0 {
                self.flash.write(end + HEADER_SIZE, data);
            }
        }

        proof {
            let f1 = self.dev();
            let len = data@.len() as int;
            assert(forall|i: int| 0 <= i < end ==> f1[i] == f0[i]);
            assert(f1[end as int] == header@[0]);
            assert(f1[end as int + 1] == header@[1]);
            assert(f1[end as int + 2] == header@[2]);
            assert(f1[end as int + 3] == header@[3]);
            assert(forall|k: int| 0 <= k < len ==> f1[end + 4 + k] == data@[k]);
            assert(forall|i: int| end + entry <= i < size ==> f1[i] == f0[i]);
            lemma_number_codec(header@[0], file_number, e);

            let rs1 = rs0.push(bnew);
            assert(forall|i: int| 0 <= i < rs0.len() ==> rs1[i] == #[trigger] rs0[i]);
            assert(rs1[rs0.len() as int] == bnew);
            assert forall|i: int| 0 <= i < rs1.len() implies crate::model::rec_matches(
                f1,
                #[trigger] rs1[i],
                slot,
                e,
            ) by {
                if i < rs0.len() {
                    assert(crate::model::rec_matches(f0, rs0[i], slot, e));
                    assert(crate::model::rec_next(rs0[i], slot) <= end);
                    lemma_round_up_bounds((4 + rs0[i].len) as nat, slot);
                }
            }
            assert forall|i: int| 0 <= i < rs1.len() - 1 implies (#[trigger] rs1[i + 1]).off
                == crate::model::rec_next(rs1[i], slot) by {
                if i < rs0.len() - 1 {
                    assert(rs1[i] == rs0[i] && rs1[i + 1] == rs0[i + 1]);
                } else {
                    assert(rs1[i] == rs0[i] && rs1[i + 1] == bnew);
                    assert(rs0[rs0.len() - 1] == rs0.last());
                }
            }
            if rs0.len() > 0 {
                assert(rs1[0] == rs0[0]);
            }
            let stop1 = crate::model::rec_next(bnew, slot);
            assert(stop1 == end + entry);
            if end + entry < size {
                assert(f1[end + entry] == f0[end + entry]);
                assert(f1[end + entry] == e);
            }
            assert(rs1.last() == bnew);
            lemma_scan_layout(f1, 0, rs1, slot, e);
            assert(self.parsed() == (ScanOut { ok: true, recs: rs1, stop: stop1 }));
            assert(rec_payload(f1, bnew) =~= data@);
            assert(f1.subrange(0, end as int) =~= f0.subrange(0, end as int));
            assert(erased_between(f1, stop1, f1.len() as nat, e));
        }
    }

    /// Stores `buffer` as the new content of file `file_number`, appending
    /// a record at the end of the store; when the tail is too short, the
    /// device is first compacted with the stale copies of this file
    /// dropped. Fails with `NoSpaceLeft` exactly when even compaction
    /// would not make room. On success the file reads back as `buffer` and
    /// every other file keeps its content.
    #[verifier::rlimit(100)]
    pub fn write_file(&mut self, file_number: u8, buffer: &Vec<u8>) -> (r: Result<
        (),
        FlashStoreError,
    >)
        requires
            old(self).wf(),
            file_number != 0xFF,
            buffer@.len() <= 0xFFFFFF,
            old(self).tidy(),
        ensures
            final(self).wf(),
            final(self).tidy(),
            final(self).dev().len() == old(self).dev().len(),
            final(self).wear().len() == old(self).wear().len(),
            final(self).wear() == old(self).wear() || (forall|p: int|
                0 <= p < final(self).wear().len() ==> final(self).wear()[p] == old(
                    self,
                ).wear()[p] + 1),
            ({
                let sc = old(self).parsed();
                let slot = Self::slot();
                let size = Flash::size_spec();
                if !sc.ok {
                    &&& r == Err::<(), FlashStoreError>(FlashStoreError::CorruptData)
                    &&& final(self).dev() == old(self).dev()
                    &&& final(self).wear() == old(self).wear()
                } else if 4 + buffer@.len() > size - used_space_model(
                    sc.recs,
                    slot,
                    file_number,
                ) {
                    &&& r == Err::<(), FlashStoreError>(FlashStoreError::NoSpaceLeft)
                    &&& final(self).dev() == old(self).dev()
                    &&& final(self).wear() == old(self).wear()
                } else {
                    &&& r == Ok::<(), FlashStoreError>(())
                    &&& final(self).parsed().ok
                    &&& (match live_rec(final(self).parsed().recs, file_number) {
                        Some(b) => b.num == file_number && b.len == buffer@.len() && rec_payload(
                            final(self).dev(),
                            b,
                        ) == buffer@,
                        None => false,
                    })
                    &&& (forall|n: u8|
                        n != file_number ==> preserves_file(
                            old(self).dev(),
                            sc.recs,
                            final(self).dev(),
                            final(self).parsed().recs,
                            n,
                        ))
                }
            }),
    {
        let ghost f0 = self.dev();
        let ghost slot = Self::slot();
        let ghost e = Flash::erased_value_spec();
        let ghost all = old(self).parsed().recs;
        let size = Flash::size();
        proof {
            self.flash.lemma_inv();
            lemma_geometry(Flash::size_spec(), Flash::page_size_spec(), Flash::word_size_spec());
            lemma_scan_props(f0, 0, slot, e);
        }
        let mut end_of_store = self.end_of_store()?;
        proof {
            // the live records never need more room than the store's tail
            // position
            assert forall|i: int| 0 <= i < all.len() implies (#[trigger] all[i]).num != 0xFF by {
                assert(rec_matches(f0, all[i], slot, e));
            }
            lemma_space_accounting(all, slot, file_number);
            lemma_keep_sum_le(all, file_number, slot);
            if all.len() > 0 {
                lemma_chain_sum(all, slot);
            }
            assert(used_space_model(all, slot, file_number) <= end_of_store);
        }
        let ghost compacted = false;

        if end_of_store > size || HEADER_SIZE + buffer.len() > size - end_of_store {
            let used = self.used_space_except(file_number)?;
            if HEADER_SIZE + buffer.len() > size - used {
                return Err(FlashStoreError::NoSpaceLeft);
            }
            end_of_store = self.compact_flash_except(file_number)?;
            proof {
                compacted = true;
            }
        }
        let ghost before_append = *self;
        proof {
            if compacted {
                lemma_scan_props(self.dev(), 0, slot, e);
            }
        }
        self.append(file_number, buffer, end_of_store);
        let ghost bnew = Rec {
            off: end_of_store as nat,
            num: file_number,
            len: buffer@.len() as nat,
        };
        proof {
            let mid = before_append.parsed().recs;
            lemma_live_push(mid, bnew, file_number);
            assert(live_rec(self.parsed().recs, file_number) == Some(bnew));
            assert forall|n: u8| n != file_number implies preserves_file(
                f0,
                all,
                self.dev(),
                self.parsed().recs,
                n,
            ) by {
                lemma_live_push(mid, bnew, n);
                lemma_live_mem(mid, n);
                if compacted {
                    let kept = keep_recs(all, file_number);
                    lemma_live_keep(all, file_number, n);
                    lemma_live_parallel(kept, mid, n);
                    match (live_rec(kept, n), live_rec(mid, n)) {
                        (Some(x), Some(y)) => {
                            let j = choose|j: int|
                                0 <= j < kept.len() && #[trigger] kept[j] == x && #[trigger] mid[j]
                                    == y;
                            assert(rec_payload(before_append.dev(), mid[j]) == rec_payload(
                                f0,
                                kept[j],
                            ));
                            assert(rec_next(y, slot) <= end_of_store);
                            let sa = self.dev().subrange(0, end_of_store as int);
                            let sb = before_append.dev().subrange(0, end_of_store as int);
                            assert(sa == sb);
                            lemma_round_up_bounds((4 + y.len) as nat, slot);
                            assert(rec_payload(self.dev(), y) =~= sa.subrange(
                                y.off as int + 4,
                                y.off as int + 4 + y.len as int,
                            ));
                            assert(rec_payload(before_append.dev(), y) =~= sb.subrange(
                                y.off as int + 4,
                                y.off as int + 4 + y.len as int,
                            ));
                        },
                        (None, None) => {},
                        _ => {},
                    }
                } else {
                    match live_rec(all, n) {
                        Some(a) => {
                            assert(rec_next(a, slot) <= end_of_store);
                            let sa = self.dev().subrange(0, end_of_store as int);
                            let sb = f0.subrange(0, end_of_store as int);
                            assert(sa == sb);
                            lemma_round_up_bounds((4 + a.len) as nat, slot);
                            assert(rec_payload(self.dev(), a) =~= sa.subrange(
                                a.off as int + 4,
                                a.off as int + 4 + a.len as int,
                            ));
                            assert(rec_payload(f0, a) =~= sb.subrange(
                                a.off as int + 4,
                                a.off as int + 4 + a.len as int,
                            ));
                        },
                        None => {},
                    }
                }
            }
        }
        Ok(())
    }
}

} // verus!
