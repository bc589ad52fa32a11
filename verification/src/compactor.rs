//! Whole-device compaction: rewrites the store in place, page by page,
//! through a single page-sized RAM buffer, keeping only the live record of
//! each file (optionally dropping one chosen file altogether).
use crate::flash_trait::FlashTrait;
use crate::model::{
    entry_size, keep_recs, lemma_chain_order, lemma_chain_sum, lemma_geometry, lemma_keep_step,
    lemma_live_mem, lemma_mod_diff, lemma_mod_sum, lemma_mod_trans, lemma_number_codec,
    lemma_round_up_bounds, lemma_round_up_le, lemma_scan_layout, lemma_scan_props, lemma_slot_step,
    lemma_space_accounting, lemma_sum_same_lens, live_rec, rec_matches, rec_next, rec_payload,
    scan_from, used_space_model, valid_geometry, Rec, ScanOut,
};
use crate::store::sub_vec;
use crate::{FlashStore, FlashStoreError, HEADER_SIZE};
use vstd::prelude::*;

verus! {

/// The state of an in-place copy: `kp` are the source records (in `f0`),
/// `nr` the same records rebased back-to-back from offset 0 in `dev`, and
/// `wp` marks how far the copy has come: every rebased byte below `wp`
/// already holds its source byte.
pub(crate) open spec fn copy_layout(
    dev: Seq<u8>,
    f0: Seq<u8>,
    nr: Seq<Rec>,
    kp: Seq<Rec>,
    wp: int,
    slot: nat,
) -> bool {
    &&& kp.len() == nr.len()
    &&& (forall|j: int|
        0 <= j < kp.len() ==> (#[trigger] nr[j]).num == kp[j].num && nr[j].len == kp[j].len)
    &&& (forall|j: int| 0 <= j < nr.len() ==> (#[trigger] nr[j]).off as int % slot as int == 0)
    &&& (nr.len() > 0 ==> nr[0].off == 0)
    &&& (forall|j: int|
        0 <= j < nr.len() - 1 ==> (#[trigger] nr[j + 1]).off == rec_next(nr[j], slot))
    &&& (nr.len() == 0 ==> wp == 0)
    &&& (nr.len() > 0 ==> nr.last().off <= wp <= rec_next(nr.last(), slot))
    &&& (forall|j: int|
        0 <= j < nr.len() - 1 ==> dev.subrange(
            (#[trigger] nr[j]).off as int,
            rec_next(nr[j], slot) as int,
        ) == f0.subrange(kp[j].off as int, rec_next(kp[j], slot) as int))
    &&& (nr.len() > 0 ==> dev.subrange(nr.last().off as int, wp) == f0.subrange(
        kp.last().off as int,
        kp.last().off + (wp - nr.last().off),
    ))
}

/// Every rebased record ends at or below the copy mark.
proof fn lemma_layout_below(nr: Seq<Rec>, kp: Seq<Rec>, dev: Seq<u8>, f0: Seq<u8>, wp: int, slot: nat)
    requires
        4 <= slot,
        copy_layout(dev, f0, nr, kp, wp, slot),
    ensures
        forall|j: int| 0 <= j < nr.len() ==> rec_next(#[trigger] nr[j], slot) <= wp || j == nr.len()
            - 1,
        forall|j: int| 0 <= j < nr.len() ==> (#[trigger] nr[j]).off <= wp,
{
    assert forall|i: int| 0 <= i < nr.len() implies entry_size((#[trigger] nr[i]).len, slot)
        >= 4 by {
        lemma_round_up_bounds((4 + nr[i].len) as nat, slot);
    }
    lemma_chain_order(nr, slot);
    assert forall|j: int| 0 <= j < nr.len() implies rec_next(#[trigger] nr[j], slot) <= wp || j
        == nr.len() - 1 by {
        if j < nr.len() - 1 {
            assert(rec_next(nr[j], slot) <= nr[nr.len() - 1].off);
            assert(nr[nr.len() - 1] == nr.last());
        }
    }
    assert forall|j: int| 0 <= j < nr.len() implies (#[trigger] nr[j]).off <= wp by {
        if j < nr.len() - 1 {
            lemma_round_up_bounds((4 + nr[j].len) as nat, slot);
            assert(rec_next(nr[j], slot) <= wp);
        } else {
            assert(nr[j] == nr.last());
        }
    }
}

/// A change at or above the copy mark leaves the copied content in place.
proof fn lemma_layout_frame(
    dev1: Seq<u8>,
    dev2: Seq<u8>,
    f0: Seq<u8>,
    nr: Seq<Rec>,
    kp: Seq<Rec>,
    wp: int,
    slot: nat,
)
    requires
        4 <= slot,
        copy_layout(dev1, f0, nr, kp, wp, slot),
        dev2.len() == dev1.len(),
        wp <= dev1.len(),
        forall|i: int| 0 <= i < wp ==> dev2[i] == dev1[i],
    ensures
        copy_layout(dev2, f0, nr, kp, wp, slot),
{
    lemma_layout_below(nr, kp, dev1, f0, wp, slot);
    assert forall|j: int| 0 <= j < nr.len() - 1 implies dev2.subrange(
        (#[trigger] nr[j]).off as int,
        rec_next(nr[j], slot) as int,
    ) == f0.subrange(kp[j].off as int, rec_next(kp[j], slot) as int) by {
        assert(rec_next(nr[j], slot) <= wp);
        assert(dev2.subrange(nr[j].off as int, rec_next(nr[j], slot) as int) =~= dev1.subrange(
            nr[j].off as int,
            rec_next(nr[j], slot) as int,
        ));
    }
    if nr.len() > 0 {
        assert(dev2.subrange(nr.last().off as int, wp) =~= dev1.subrange(
            nr.last().off as int,
            wp,
        ));
    }
}

/// Copying the next `cl` source bytes moves the copy mark forward.
proof fn lemma_layout_extend(
    dev1: Seq<u8>,
    dev2: Seq<u8>,
    f0: Seq<u8>,
    nr: Seq<Rec>,
    kp: Seq<Rec>,
    wp: int,
    cl: int,
    slot: nat,
)
    requires
        4 <= slot,
        copy_layout(dev1, f0, nr, kp, wp, slot),
        nr.len() > 0,
        0 <= cl,
        wp + cl <= rec_next(nr.last(), slot),
        dev2.len() == dev1.len(),
        wp + cl <= dev2.len(),
        rec_next(kp.last(), slot) <= f0.len(),
        kp.last().len == nr.last().len,
        forall|i: int| 0 <= i < wp ==> dev2[i] == dev1[i],
        dev2.subrange(wp, wp + cl) == f0.subrange(
            kp.last().off + (wp - nr.last().off),
            kp.last().off + (wp - nr.last().off) + cl,
        ),
    ensures
        copy_layout(dev2, f0, nr, kp, wp + cl, slot),
{
    lemma_layout_frame(dev1, dev2, f0, nr, kp, wp, slot);
    let no = nr.last().off as int;
    let ko = kp.last().off as int;
    assert(dev2.subrange(no, wp) == f0.subrange(ko, ko + (wp - no)));
    assert(dev2.subrange(no, wp + cl) =~= dev2.subrange(no, wp) + dev2.subrange(wp, wp + cl));
    assert(f0.subrange(ko, ko + (wp + cl - no)) =~= f0.subrange(ko, ko + (wp - no)) + f0.subrange(
        ko + (wp - no),
        ko + (wp - no) + cl,
    ));
}

/// Starting to copy a fresh record appends it to both chains.
proof fn lemma_layout_push(
    dev1: Seq<u8>,
    dev2: Seq<u8>,
    f0: Seq<u8>,
    nr: Seq<Rec>,
    kp: Seq<Rec>,
    cur: Rec,
    wp: int,
    on_this: int,
    slot: nat,
)
    requires
        4 <= slot,
        copy_layout(dev1, f0, nr, kp, wp, slot),
        nr.len() > 0 ==> wp == rec_next(nr.last(), slot),
        0 < on_this <= entry_size(cur.len, slot),
        wp as int % slot as int == 0,
        dev2.len() == dev1.len(),
        wp + on_this <= dev2.len(),
        rec_next(cur, slot) <= f0.len(),
        forall|i: int| 0 <= i < wp ==> dev2[i] == dev1[i],
        dev2.subrange(wp, wp + on_this) == f0.subrange(cur.off as int, cur.off + on_this),
    ensures
        copy_layout(
            dev2,
            f0,
            nr.push(Rec { off: wp as nat, num: cur.num, len: cur.len }),
            kp.push(cur),
            wp + on_this,
            slot,
        ),
{
    lemma_layout_frame(dev1, dev2, f0, nr, kp, wp, slot);
    lemma_layout_below(nr, kp, dev2, f0, wp, slot);
    let nb = Rec { off: wp as nat, num: cur.num, len: cur.len };
    let nr1 = nr.push(nb);
    let kp1 = kp.push(cur);
    assert(forall|j: int| 0 <= j < nr.len() ==> #[trigger] nr1[j] == nr[j]);
    assert(forall|j: int| 0 <= j < kp.len() ==> #[trigger] kp1[j] == kp[j]);
    assert(nr1[nr.len() as int] == nb && kp1[kp.len() as int] == cur);
    assert(nr1.last() == nb && kp1.last() == cur);
    lemma_round_up_bounds((4 + cur.len) as nat, slot);
    assert forall|j: int| 0 <= j < nr1.len() - 1 implies (#[trigger] nr1[j + 1]).off == rec_next(
        nr1[j],
        slot,
    ) by {
        if j < nr.len() - 1 {
            assert(nr1[j] == nr[j] && nr1[j + 1] == nr[j + 1]);
        } else {
            assert(nr1[j] == nr[nr.len() - 1] && nr[nr.len() - 1] == nr.last());
        }
    }
    assert forall|j: int| 0 <= j < nr1.len() - 1 implies dev2.subrange(
        (#[trigger] nr1[j]).off as int,
        rec_next(nr1[j], slot) as int,
    ) == f0.subrange(kp1[j].off as int, rec_next(kp1[j], slot) as int) by {
        if j < nr.len() - 1 {
            assert(nr1[j] == nr[j] && kp1[j] == kp[j]);
        } else {
            assert(nr1[j] == nr.last() && kp1[j] == kp.last());
            assert(rec_next(nr.last(), slot) == wp);
            assert(dev2.subrange(nr.last().off as int, wp) == f0.subrange(
                kp.last().off as int,
                kp.last().off + (wp - nr.last().off),
            ));
            assert(kp.last().off + (wp - nr.last().off) == rec_next(kp.last(), slot)) by {
                assert(nr.last().len == kp.last().len);
            }
        }
    }
    assert(dev2.subrange(nb.off as int, wp + on_this) == f0.subrange(
        cur.off as int,
        cur.off + (wp + on_this - nb.off),
    ));
}


/// The unchanging context of one compaction run: workable device
/// constants, the pre-compaction image `f0` with its records `all` and end
/// `stop0`, and the file index `findex` taken from it.
pub(crate) open spec fn compact_ctx(
    f0: Seq<u8>,
    all: Seq<Rec>,
    stop0: nat,
    slot: nat,
    erased: u8,
    size: usize,
    page_size: usize,
    word: usize,
    findex: Seq<usize>,
) -> bool {
    &&& 4 <= slot <= 32
    &&& 1 <= word
    &&& slot as int % word as int == 0
    &&& valid_geometry(size, page_size, word)
    &&& 0 < page_size <= size
    &&& size as int % page_size as int == 0
    &&& page_size as int % slot as int == 0
    &&& size as int % slot as int == 0
    &&& size <= 0x1000_0000
    &&& f0.len() == size
    &&& scan_from(f0, 0, slot, erased) == (ScanOut { ok: true, recs: all, stop: stop0 })
    &&& (forall|i: int| 0 <= i < all.len() ==> rec_matches(f0, #[trigger] all[i], slot, erased))
    &&& (forall|i: int|
        0 <= i < all.len() - 1 ==> (#[trigger] all[i + 1]).off == rec_next(all[i], slot))
    &&& (forall|i: int| 0 <= i < all.len() ==> rec_next(#[trigger] all[i], slot) <= stop0)
    &&& (all.len() > 0 ==> all[0].off == 0)
    &&& stop0 <= size
    &&& stop0 as int % slot as int == 0
    &&& (stop0 == size || f0[stop0 as int] == erased)
    &&& (all.len() > 0 ==> stop0 == rec_next(all.last(), slot))
    &&& (all.len() == 0 ==> stop0 == 0)
    &&& findex.len() == 255
    &&& (forall|m: int|
        0 <= m < 255 ==> findex[m] == (match live_rec(all, m as u8) {
            Some(rec) => rec.off as usize,
            None => usize::MAX,
        }))
}

impl<Flash: FlashTrait, const PAGE_SIZE: usize> FlashStore<Flash, PAGE_SIZE> {
    /// Copies the on-page part of the live record `cur` to the write
    /// cursor and appends it to the rebased chain.
    #[verifier::rlimit(100)]
    fn copy_live_chunk(
        &mut self,
        page_buffer: &Vec<u8>,
        page: usize,
        read_pointer: usize,
        write_pointer: usize,
        on_this_page: usize,
        Ghost(f0): Ghost<Seq<u8>>,
        Ghost(cur): Ghost<Rec>,
        Ghost(kp): Ghost<Seq<Rec>>,
        Ghost(nr): Ghost<Seq<Rec>>,
    ) -> (res: Ghost<(Seq<Rec>, Seq<Rec>)>)
        requires
            old(self).wf(),
            ({
                let slot = Self::slot();
                let word = Flash::word_size_spec();
                let size = Flash::size_spec();
                let page_size = Flash::page_size_spec();
                let erased = Flash::erased_value_spec();
                &&& valid_geometry(size, page_size, word)
                &&& old(self).dev().len() == size
                &&& f0.len() == size
                &&& page + page_size <= size
                &&& page as int % slot as int == 0
                &&& page_size as int % slot as int == 0
                &&& page <= read_pointer < page + page_size
                &&& read_pointer as int % slot as int == 0
                &&& write_pointer as int % slot as int == 0
                &&& copy_layout(old(self).dev(), f0, nr, kp, write_pointer as int, slot)
                &&& (nr.len() > 0 ==> write_pointer == rec_next(nr.last(), slot))
                &&& (nr.len() == 0 ==> write_pointer == 0)
                &&& page_buffer@ == f0.subrange(page as int, page + page_size)
                &&& rec_matches(f0, cur, slot, erased)
                &&& cur.off == read_pointer
                &&& rec_next(cur, slot) <= size
                &&& 0 < on_this_page
                &&& on_this_page as int % slot as int == 0
                &&& on_this_page <= entry_size(cur.len, slot)
                &&& read_pointer + on_this_page <= page + page_size
                &&& write_pointer <= read_pointer
                &&& (forall|i: int|
                    write_pointer <= i < page + page_size ==> old(self).dev()[i] == erased)
                &&& (forall|i: int|
                    page + page_size <= i < size ==> old(self).dev()[i] == f0[i])
            }),
        ensures
            final(self).wf(),
            final(self).wear() == old(self).wear(),
            final(self).dev().len() == old(self).dev().len(),
            ({
                let slot = Self::slot();
                let size = Flash::size_spec();
                let page_size = Flash::page_size_spec();
                let erased = Flash::erased_value_spec();
                let kp1 = res@.0;
                let nr1 = res@.1;
                let nb = Rec { off: write_pointer as nat, num: cur.num, len: cur.len };
                &&& kp1 == kp.push(cur)
                &&& nr1 == nr.push(nb)
                &&& nr1.last() == nb
                &&& kp1.last() == cur
                &&& copy_layout(
                    final(self).dev(),
                    f0,
                    nr1,
                    kp1,
                    write_pointer + on_this_page,
                    slot,
                )
                &&& rec_next(nb, slot) == write_pointer + entry_size(cur.len, slot)
                &&& (forall|i: int|
                    write_pointer + on_this_page <= i < page + page_size ==> final(self).dev()[i]
                        == erased)
                &&& (forall|i: int|
                    page + page_size <= i < size ==> final(self).dev()[i] == f0[i])
            }),
    {
        let ghost slot = Self::slot();
        let ghost erased = Flash::erased_value_spec();
        let word = Flash::word_size();
        proof {
            self.flash.lemma_inv();
            lemma_geometry(Flash::size_spec(), Flash::page_size_spec(), Flash::word_size_spec());
            lemma_mod_trans(write_pointer as int, slot as int, word as int);
            lemma_mod_trans(on_this_page as int, slot as int, word as int);
            lemma_round_up_le(on_this_page as nat, on_this_page as nat, word as nat);
            lemma_round_up_bounds(on_this_page as nat, word as nat);
        }
        let read_pointer_in_page = read_pointer - page;
        let chunk = sub_vec(
            page_buffer,
            read_pointer_in_page,
            read_pointer_in_page + on_this_page,
        );
        let ghost dev1 = self.dev();
        self.flash.write(write_pointer, &chunk);
        proof {
            let wp0 = write_pointer as int;
            assert(self.dev().subrange(wp0, wp0 + on_this_page) =~= f0.subrange(
                read_pointer as int,
                read_pointer + on_this_page,
            ));
            lemma_layout_push(
                dev1,
                self.dev(),
                f0,
                nr,
                kp,
                cur,
                wp0,
                on_this_page as int,
                slot,
            );
            lemma_round_up_bounds((4 + cur.len) as nat, slot);
        }
        Ghost((kp.push(cur), nr.push(Rec { off: write_pointer as nat, num: cur.num, len: cur.len })))
    }

    /// Rewrites the whole device, keeping for every file other than
    /// `except_file_number` exactly its live record, with its payload
    /// unchanged, packed back-to-back from offset 0. Every page is erased
    /// exactly once. Returns the new end of the store, which equals the
    /// used space outside the excluded file.
    #[verifier::rlimit(100)]
    pub(crate) fn compact_flash_except(&mut self, except_file_number: u8) -> (r: Result<
        usize,
        FlashStoreError,
    >)
        requires
            old(self).wf(),
            old(self).parsed().ok,
        ensures
            final(self).wf(),
            final(self).tidy(),
            final(self).dev().len() == old(self).dev().len(),
            final(self).wear().len() == old(self).wear().len(),
            forall|p: int|
                0 <= p < final(self).wear().len() ==> final(self).wear()[p] == old(self).wear()[p]
                    + 1,
            ({
                let slot = Self::slot();
                let kept = keep_recs(old(self).parsed().recs, except_file_number);
                let nsc = final(self).parsed();
                &&& nsc.ok
                &&& nsc.recs.len() == kept.len()
                &&& (forall|j: int|
                    0 <= j < kept.len() ==> (#[trigger] nsc.recs[j]).num == kept[j].num
                        && nsc.recs[j].len == kept[j].len && rec_payload(
                        final(self).dev(),
                        nsc.recs[j],
                    ) == rec_payload(old(self).dev(), kept[j]))
                &&& nsc.stop == used_space_model(
                    old(self).parsed().recs,
                    slot,
                    except_file_number,
                )
                &&& r == Ok::<usize, FlashStoreError>(nsc.stop as usize)
            }),
    {
        let ghost f0 = self.dev();
        let ghost slot = Self::slot();
        let ghost e = Flash::erased_value_spec();
        let ghost all = old(self).parsed().recs;
        let ghost stop0 = old(self).parsed().stop;
        let ghost w0 = self.wear();
        let size = Flash::size();
        let page_size = Flash::page_size();
        let word = Flash::word_size();
        proof {
            self.flash.lemma_inv();
            lemma_geometry(Flash::size_spec(), Flash::page_size_spec(), Flash::word_size_spec());
            lemma_scan_props(f0, 0, slot, e);
            assert forall|i: int| 0 <= i < all.len() implies entry_size(
                (#[trigger] all[i]).len,
                slot,
            ) >= 4 by {
                lemma_round_up_bounds((4 + all[i].len) as nat, slot);
            }
            lemma_chain_order(all, slot);
            assert forall|a: int, b: int| 0 <= a < b < all.len() implies (
            #[trigger] all[a]).off < (#[trigger] all[b]).off by {
                assert(rec_next(all[a], slot) <= all[b].off);
            }
            lemma_mod_trans(PAGE_SIZE as int, slot as int, word as int);
        }

        let file_index = self.generate_file_index()?;

        proof {
            assert(compact_ctx(
                f0,
                all,
                stop0,
                slot,
                e,
                size,
                page_size,
                word,
                file_index@,
            ));
            assert(all.skip(0) =~= all);
            assert(Seq::<Rec>::empty() + keep_recs(all, except_file_number) =~= keep_recs(
                all,
                except_file_number,
            ));
        }
        let mut read_pointer: usize = 0;
        let mut write_pointer: usize = 0;
        let mut remaining_bytes_to_copy: usize = 0;
        let mut page: usize = 0;
        let mut pages_done: usize = 0;
        let ghost mut idx: int = 0;
        let ghost mut kp: Seq<Rec> = Seq::empty();
        let ghost mut nr: Seq<Rec> = Seq::empty();

        while page < size
            invariant
                self.wf(),
                f0 == old(self).dev(),
                w0 == old(self).wear(),
                size == Flash::size_spec(),
                page_size == Flash::page_size_spec(),
                word == Flash::word_size_spec(),
                slot == Self::slot(),
                e == Flash::erased_value_spec(),
                compact_ctx(f0, all, stop0, slot, e, size, page_size, word, file_index@),
                self.dev().len() == size,
                page == pages_done * page_size,
                page <= size,
                page as int % slot as int == 0,
                self.wear().len() == w0.len(),
                w0.len() == size as int / page_size as int,
                forall|p: int| 0 <= p < pages_done ==> self.wear()[p] == w0[p] + 1,
                forall|p: int| pages_done <= p < w0.len() ==> self.wear()[p] == w0[p],
                0 <= idx <= all.len(),
                idx < all.len() ==> read_pointer == all[idx].off,
                idx == all.len() ==> read_pointer == stop0 || read_pointer == size,
                read_pointer as int % slot as int == 0,
                read_pointer >= page,
                forall|j: int|
                    0 <= j < kp.len() ==> (#[trigger] kp[j]).num != except_file_number,
                forall|j: int| 0 <= j < kp.len() ==> rec_matches(f0, #[trigger] kp[j], slot, e),
                forall|j: int|
                    0 <= j < kp.len() ==> rec_next(#[trigger] kp[j], slot) <= stop0,
                keep_recs(all, except_file_number) == kp + keep_recs(
                    all.skip(idx),
                    except_file_number,
                ),
                copy_layout(self.dev(), f0, nr, kp, write_pointer as int, slot),
                write_pointer as int % slot as int == 0,
                write_pointer <= page,
                nr.len() == 0 ==> remaining_bytes_to_copy == 0,
                nr.len() > 0 ==> write_pointer + remaining_bytes_to_copy == rec_next(
                    nr.last(),
                    slot,
                ),
                write_pointer + remaining_bytes_to_copy <= read_pointer,
                remaining_bytes_to_copy > 0 ==> kp.len() > 0 && read_pointer == rec_next(
                    kp.last(),
                    slot,
                ) && read_pointer - remaining_bytes_to_copy == page,
                remaining_bytes_to_copy as int % slot as int == 0,
                forall|i: int| write_pointer <= i < page ==> self.dev()[i] == e,
                forall|i: int| page <= i < size ==> self.dev()[i] == f0[i],
            decreases size - page,
        {
            proof {
                vstd::arithmetic::div_mod::lemma_mod_multiples_basic(
                    pages_done as int,
                    page_size as int,
                );
                vstd::arithmetic::div_mod::lemma_div_by_multiple(
                    pages_done as int,
                    page_size as int,
                );
                lemma_mod_diff(size as int, page as int, page_size as int);
                if size - page < page_size {
                    vstd::arithmetic::div_mod::lemma_small_mod(
                        (size - page) as nat,
                        page_size as nat,
                    );
                }
                assert(pages_done < w0.len()) by (nonlinear_arith)
                    requires
                        page == pages_done * page_size,
                        page + page_size <= size,
                        page_size >= 1,
                        w0.len() == size as int / page_size as int,
                        size as int % page_size as int == 0,
                ;
            }
            let page_buffer = self.flash.read(page, page_size);
            let ghost dev_pre = self.dev();
            self.flash.erase_page(page);
            proof {
                lemma_layout_frame(
                    dev_pre,
                    self.dev(),
                    f0,
                    nr,
                    kp,
                    write_pointer as int,
                    slot,
                );
            }

            if remaining_bytes_to_copy > 0 {
                let copy_from_this_page = if remaining_bytes_to_copy < page_size {
                    remaining_bytes_to_copy
                } else {
                    page_size
                };
                proof {
                    lemma_mod_trans(write_pointer as int, slot as int, word as int);
                    if copy_from_this_page == page_size {
                        lemma_mod_trans(page_size as int, slot as int, word as int);
                        lemma_round_up_le(page_size as nat, page_size as nat, word as nat);
                        lemma_round_up_bounds(page_size as nat, word as nat);
                    } else {
                        lemma_mod_trans(remaining_bytes_to_copy as int, slot as int, word as int);
                        lemma_round_up_le(
                            copy_from_this_page as nat,
                            copy_from_this_page as nat,
                            word as nat,
                        );
                        lemma_round_up_bounds(copy_from_this_page as nat, word as nat);
                    }
                }
                let chunk = sub_vec(&page_buffer, 0, copy_from_this_page);
                let ghost dev1 = self.dev();
                self.flash.write(write_pointer, &chunk);
                proof {
                    let wp0 = write_pointer as int;
                    let cl = copy_from_this_page as int;
                    assert(self.dev().subrange(wp0, wp0 + cl) =~= f0.subrange(
                        page as int,
                        page + cl,
                    ));
                    assert(kp.last().off + (wp0 - nr.last().off) == page) by {
                        assert(nr.last().len == kp.last().len);
                    }
                    lemma_layout_extend(
                        dev1,
                        self.dev(),
                        f0,
                        nr,
                        kp,
                        wp0,
                        cl,
                        slot,
                    );
                }
                write_pointer = write_pointer + copy_from_this_page;
                remaining_bytes_to_copy = remaining_bytes_to_copy - copy_from_this_page;
                proof {
                    lemma_mod_sum(
                        write_pointer as int - copy_from_this_page,
                        copy_from_this_page as int,
                        slot as int,
                    );
                    lemma_mod_diff(
                        (remaining_bytes_to_copy + copy_from_this_page) as int,
                        copy_from_this_page as int,
                        slot as int,
                    );
                }
            }

            while read_pointer < page + page_size
                invariant
                    self.wf(),
                    f0 == old(self).dev(),
                    w0 == old(self).wear(),
                    size == Flash::size_spec(),
                    page_size == Flash::page_size_spec(),
                    word == Flash::word_size_spec(),
                    slot == Self::slot(),
                    e == Flash::erased_value_spec(),
                    compact_ctx(f0, all, stop0, slot, e, size, page_size, word, file_index@),
                    self.dev().len() == size,
                    page == pages_done * page_size,
                    page + page_size <= size,
                    page as int % slot as int == 0,
                    self.wear().len() == w0.len(),
                    w0.len() == size as int / page_size as int,
                    forall|p: int| 0 <= p <= pages_done ==> self.wear()[p] == w0[p] + 1,
                    forall|p: int|
                        pages_done + 1 <= p < w0.len() ==> self.wear()[p] == w0[p],
                    page_buffer@ == f0.subrange(page as int, page + page_size),
                    0 <= idx <= all.len(),
                    idx < all.len() ==> read_pointer == all[idx].off,
                    idx == all.len() ==> read_pointer == stop0 || read_pointer == size,
                    read_pointer as int % slot as int == 0,
                    read_pointer >= page,
                    forall|j: int|
                        0 <= j < kp.len() ==> (#[trigger] kp[j]).num != except_file_number,
                    forall|j: int|
                        0 <= j < kp.len() ==> rec_matches(f0, #[trigger] kp[j], slot, e),
                    forall|j: int|
                        0 <= j < kp.len() ==> rec_next(#[trigger] kp[j], slot) <= stop0,
                    keep_recs(all, except_file_number) == kp + keep_recs(
                        all.skip(idx),
                        except_file_number,
                    ),
                    copy_layout(self.dev(), f0, nr, kp, write_pointer as int, slot),
                    write_pointer as int % slot as int == 0,
                    write_pointer <= page + page_size,
                    nr.len() == 0 ==> remaining_bytes_to_copy == 0,
                    nr.len() > 0 ==> write_pointer + remaining_bytes_to_copy == rec_next(
                        nr.last(),
                        slot,
                    ),
                    write_pointer + remaining_bytes_to_copy <= read_pointer,
                    remaining_bytes_to_copy > 0 ==> kp.len() > 0 && read_pointer == rec_next(
                        kp.last(),
                        slot,
                    ) && read_pointer - remaining_bytes_to_copy == page + page_size,
                    remaining_bytes_to_copy as int % slot as int == 0,
                    forall|i: int|
                        write_pointer <= i < page + page_size ==> self.dev()[i] == e,
                    forall|i: int| page + page_size <= i < size ==> self.dev()[i] == f0[i],
                decreases size - read_pointer,
            {
                proof {
                    lemma_mod_sum(page as int, page_size as int, slot as int);
                    lemma_slot_step(read_pointer as nat, (page + page_size) as nat, slot);
                }
                let read_pointer_in_page = read_pointer - page;
                let header = sub_vec(&page_buffer, read_pointer_in_page, read_pointer_in_page
                    + HEADER_SIZE);
                let (file_number, file_size) = Self::parse_header(&header);
                proof {
                    assert(header@[0] == f0[read_pointer as int]);
                    assert(header@[1] == f0[read_pointer as int + 1]);
                    assert(header@[2] == f0[read_pointer as int + 2]);
                    assert(header@[3] == f0[read_pointer as int + 3]);
                    lemma_number_codec(f0[read_pointer as int], 0, e);
                }

                if file_number == 0xFF {
                    proof {
                        // an erased header byte can only be the end of the
                        // store: every record header differs from it
                        if idx < all.len() {
                            assert(rec_matches(f0, all[idx], slot, e));
                            assert(false);
                        }
                    }
                    read_pointer = size;
                    continue ;
                }
                proof {
                    if idx == all.len() {
                        // at the old end of the store the header byte is
                        // erased, so this branch cannot be reached
                        assert(read_pointer < size);
                        assert(read_pointer == stop0);
                        assert(f0[stop0 as int] == e);
                        assert(false);
                    }
                }
                let ghost cur = all[idx];
                proof {
                    assert(cur.num == file_number && cur.len == file_size);
                    assert(read_pointer + 4 + file_size <= size);
                    lemma_round_up_bounds((4 + file_size) as nat, slot);
                    lemma_mod_diff(size as int, read_pointer as int, slot as int);
                    lemma_round_up_le(
                        (4 + file_size) as nat,
                        (size - read_pointer) as nat,
                        slot,
                    );
                }
                let entry_sz = Self::round(HEADER_SIZE + file_size);
                let available = page + page_size - read_pointer;
                let entry_size_on_this_page = if entry_sz < available {
                    entry_sz
                } else {
                    available
                };
                let entry_size_on_next_page = entry_sz - entry_size_on_this_page;

                let discard_file_entry = file_index[file_number as usize] != read_pointer
                    || file_number == except_file_number;

                proof {
                    lemma_keep_step(all, idx, slot, except_file_number);
                    lemma_live_mem(all, file_number);
                    match live_rec(all, file_number) {
                        Some(lr) => {
                            if file_index@[file_number as int] == read_pointer {
                                assert(lr.off == cur.off);
                                assert(lr == cur);
                            }
                        },
                        None => {
                            assert(false);
                        },
                    }
                }

                if !discard_file_entry {
                    // this is the live record of a kept file: copy the part
                    // of it that sits on this page
                    proof {
                        assert(live_rec(all, file_number) == Some(cur));
                        assert(live_rec(all.skip(idx + 1), file_number) is None);
                        lemma_mod_diff(
                            (page + page_size) as int,
                            read_pointer as int,
                            slot as int,
                        );
                        if available < slot {
                            vstd::arithmetic::div_mod::lemma_small_mod(available as nat, slot);
                            assert(false);
                        }
                    }
                    let chains = self.copy_live_chunk(
                        &page_buffer,
                        page,
                        read_pointer,
                        write_pointer,
                        entry_size_on_this_page,
                        Ghost(f0),
                        Ghost(cur),
                        Ghost(kp),
                        Ghost(nr),
                    );
                    proof {
                        let kp1 = chains@.0;
                        let nr1 = chains@.1;
                        assert(forall|j: int| 0 <= j < kp.len() ==> #[trigger] kp1[j] == kp[j]);
                        assert(kp1[kp.len() as int] == cur);
                        assert((kp + (seq![cur] + keep_recs(all.skip(idx + 1), except_file_number)))
                            =~= kp1 + keep_recs(all.skip(idx + 1), except_file_number));
                        kp = kp1;
                        nr = nr1;
                    }
                    write_pointer = write_pointer + entry_size_on_this_page;
                    remaining_bytes_to_copy = entry_size_on_next_page;
                    proof {
                        lemma_mod_sum(
                            write_pointer as int - entry_size_on_this_page,
                            entry_size_on_this_page as int,
                            slot as int,
                        );
                        lemma_mod_diff(
                            entry_sz as int,
                            entry_size_on_this_page as int,
                            slot as int,
                        );
                    }
                } else {
                    proof {
                        assert(!(cur.num != except_file_number && live_rec(
                            all.skip(idx + 1),
                            file_number,
                        ) is None));
                    }
                }
                proof {
                    if idx + 1 < all.len() {
                        assert(all[idx + 1].off == rec_next(all[idx], slot));
                    } else {
                        assert(all.last() == all[idx]);
                        assert(stop0 == rec_next(all[idx], slot));
                    }
                    lemma_mod_sum(read_pointer as int, entry_sz as int, slot as int);
                    idx = idx + 1;
                }
                read_pointer = read_pointer + entry_sz;
            }

            proof {
                assert((pages_done + 1) * page_size == pages_done * page_size + page_size)
                    by (nonlinear_arith);
                lemma_mod_sum(page as int, page_size as int, slot as int);
            }
            page = page + page_size;
            pages_done = pages_done + 1;
        }

        proof {
            // the loop covered the whole device
            if remaining_bytes_to_copy > 0 {
                assert(kp.last().off + 4 <= f0.len());
                assert(rec_next(kp.last(), slot) <= stop0);
                assert(false);
            }
            if idx < all.len() {
                assert(all[idx].off + 4 <= size);
                assert(false);
            }
            assert(all.skip(all.len() as int) =~= Seq::<Rec>::empty());
            assert(kp + keep_recs(Seq::<Rec>::empty(), except_file_number) =~= kp);
            assert(kp == keep_recs(all, except_file_number));
            vstd::arithmetic::div_mod::lemma_div_by_multiple(pages_done as int, page_size as int);
            assert(pages_done == w0.len());

            // the new device scans to exactly the rebased kept records
            let f1 = self.dev();
            let wp = write_pointer as int;
            lemma_layout_below(nr, kp, f1, f0, wp, slot);
            assert forall|j: int| 0 <= j < nr.len() implies f1.subrange(
                (#[trigger] nr[j]).off as int,
                rec_next(nr[j], slot) as int,
            ) == f0.subrange(kp[j].off as int, rec_next(kp[j], slot) as int) by {
                if j == nr.len() - 1 {
                    assert(nr[j] == nr.last() && kp[j] == kp.last());
                    assert(rec_next(nr.last(), slot) == wp);
                    assert(kp.last().off + (wp - nr.last().off) == rec_next(kp.last(), slot)) by {
                        assert(nr.last().len == kp.last().len);
                    }
                }
            }
            assert forall|j: int| 0 <= j < nr.len() implies rec_matches(
                f1,
                #[trigger] nr[j],
                slot,
                e,
            ) by {
                assert(rec_matches(f0, kp[j], slot, e));
                let sa = f1.subrange(nr[j].off as int, rec_next(nr[j], slot) as int);
                let sb = f0.subrange(kp[j].off as int, rec_next(kp[j], slot) as int);
                assert(sa == sb);
                lemma_round_up_bounds((4 + nr[j].len) as nat, slot);
                assert(rec_next(nr[j], slot) <= wp <= size);
                assert(f1[nr[j].off as int] == sa[0]);
                assert(f0[kp[j].off as int] == sb[0]);
                assert(f1[nr[j].off as int + 1] == sa[1] && f0[kp[j].off as int + 1] == sb[1]);
                assert(f1[nr[j].off as int + 2] == sa[2] && f0[kp[j].off as int + 2] == sb[2]);
                assert(f1[nr[j].off as int + 3] == sa[3] && f0[kp[j].off as int + 3] == sb[3]);
            }
            assert forall|j: int| 0 <= j < nr.len() implies rec_payload(f1, #[trigger] nr[j])
                == rec_payload(f0, kp[j]) by {
                let sa = f1.subrange(nr[j].off as int, rec_next(nr[j], slot) as int);
                let sb = f0.subrange(kp[j].off as int, rec_next(kp[j], slot) as int);
                assert(sa == sb);
                lemma_round_up_bounds((4 + nr[j].len) as nat, slot);
                let plen = nr[j].len as int;
                assert(rec_payload(f1, nr[j]) =~= sa.subrange(4, 4 + plen));
                assert(rec_payload(f0, kp[j]) =~= sb.subrange(4, 4 + plen));
            }
            if nr.len() > 0 {
                assert(nr.last() == nr[nr.len() - 1]);
                assert(rec_next(nr.last(), slot) == wp);
            }
            lemma_scan_layout(f1, 0, nr, slot, e);
            assert(self.parsed() == (ScanOut {
                ok: true,
                recs: nr,
                stop: if nr.len() == 0 {
                    0nat
                } else {
                    rec_next(nr.last(), slot)
                },
            }));
            assert(self.parsed().stop == wp);

            // the new end of the store is the used space outside the
            // excluded file
            assert forall|i: int| 0 <= i < all.len() implies (#[trigger] all[i]).num != 0xFF by {
                assert(rec_matches(f0, all[i], slot, e));
            }
            lemma_space_accounting(all, slot, except_file_number);
            lemma_sum_same_lens(nr, kp, slot);
            if nr.len() > 0 {
                lemma_chain_sum(nr, slot);
            }
            assert(wp == used_space_model(all, slot, except_file_number));
        }
        Ok(write_pointer)
    }
}

} // verus!
