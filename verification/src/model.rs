//! Mathematical model of the on-flash record store.
//!
//! The device is a sequence of bytes. Records are laid out contiguously from
//! offset 0: a 4-byte header (encoded file number, 24-bit little-endian
//! payload length), the payload, and padding up to the next slot boundary,
//! where the slot size is `max(word_size, 4)`. The first header whose first
//! byte still holds the erased value marks the end of the store.
use vstd::prelude::*;

verus! {

/// The record placement granularity: `max(word_size, 4)`.
pub open spec fn slot_size(word: nat) -> nat {
    if word >= 4 {
        word
    } else {
        4
    }
}

/// `v` rounded up to the next multiple of `g`.
pub open spec fn round_up_to(v: nat, g: nat) -> nat
    recommends
        g >= 1,
{
    (((v + g - 1) as int / g as int) * g as int) as nat
}

/// Rounding up lands on the next multiple of `g`, less than one `g` away.
pub proof fn lemma_round_up_bounds(v: nat, g: nat)
    requires
        g >= 1,
    ensures
        v <= round_up_to(v, g),
        round_up_to(v, g) < v + g,
        round_up_to(v, g) % g == 0,
{
    let vi = v as int;
    let gi = g as int;
    let q: int = (vi + gi - 1) / gi;
    assert(vi <= q * gi < vi + gi && (q * gi) % gi == 0) by (nonlinear_arith)
        requires
            gi >= 1,
            q == (vi + gi - 1) / gi,
            vi >= 0,
    ;
}

/// A multiple of `g` at or above `v` is at or above `round_up_to(v, g)`.
pub proof fn lemma_round_up_le(v: nat, m: nat, g: nat)
    requires
        g >= 1,
        v <= m,
        m % g == 0,
    ensures
        round_up_to(v, g) <= m,
{
    let vi = v as int;
    let gi = g as int;
    let mi = m as int;
    let q: int = (vi + gi - 1) / gi;
    assert(q * gi <= mi) by (nonlinear_arith)
        requires
            gi >= 1,
            q == (vi + gi - 1) / gi,
            0 <= vi <= mi,
            mi % gi == 0,
    ;
}

/// Adding a multiple of `g` commutes with rounding.
pub proof fn lemma_round_up_shift(a: nat, v: nat, g: nat)
    requires
        g >= 1,
        a % g == 0,
    ensures
        round_up_to((a + v) as nat, g) == a + round_up_to(v, g),
{
    let m1 = round_up_to((a + v) as nat, g);
    let m2 = (a + round_up_to(v, g)) as nat;
    lemma_round_up_bounds((a + v) as nat, g);
    lemma_round_up_bounds(v, g);
    lemma_mod_sum(a as int, round_up_to(v, g) as int, g as int);
    if m1 >= m2 {
        lemma_mod_diff(m1 as int, m2 as int, g as int);
        vstd::arithmetic::div_mod::lemma_small_mod((m1 - m2) as nat, g);
    } else {
        lemma_mod_diff(m2 as int, m1 as int, g as int);
        vstd::arithmetic::div_mod::lemma_small_mod((m2 - m1) as nat, g);
    }
}

/// The file number stored in the first header byte. An erased byte decodes
/// to the end-of-store sentinel 0xFF.
pub open spec fn decode_number(b: u8, erased: u8) -> u8 {
    !b ^ erased
}

/// The first header byte for a given file number.
pub open spec fn encode_number(n: u8, erased: u8) -> u8 {
    !n ^ erased
}

/// The 24-bit little-endian payload length in header bytes 1..4.
pub open spec fn decode_len(b1: u8, b2: u8, b3: u8) -> nat {
    (b1 + 256 * (b2 as nat) + 65536 * (b3 as nat)) as nat
}

/// The file-number byte codec: only an erased byte decodes to the
/// end-of-store sentinel, and decoding inverts encoding.
pub proof fn lemma_number_codec(b: u8, n: u8, e: u8)
    ensures
        (decode_number(b, e) == 0xFF) <==> (b == e),
        decode_number(encode_number(n, e), e) == n,
{
    assert(((!b ^ e) == 0xFFu8) <==> (b == e)) by (bit_vector);
    assert((!(!n ^ e) ^ e) == n) by (bit_vector);
}

/// One record as the scanner sees it: its header offset, decoded file
/// number and payload length.
pub ghost struct Rec {
    pub off: nat,
    pub num: u8,
    pub len: nat,
}

/// Bytes a record occupies on the device, padding included.
pub open spec fn entry_size(len: nat, slot: nat) -> nat {
    round_up_to((4 + len) as nat, slot)
}

/// Offset of the slot right after a record.
pub open spec fn rec_next(r: Rec, slot: nat) -> nat {
    (r.off + entry_size(r.len, slot)) as nat
}

/// The payload bytes of a record.
pub open spec fn rec_payload(f: Seq<u8>, r: Rec) -> Seq<u8> {
    f.subrange(r.off as int + 4, r.off as int + 4 + r.len as int)
}

/// Everything one walk of the device yields: whether the walk completed
/// without meeting an over-long record, the records in layout order, and
/// the offset where the walk stopped (the end of the store).
pub ghost struct ScanOut {
    pub ok: bool,
    pub recs: Seq<Rec>,
    pub stop: nat,
}

/// Walk the device from `pos`, collecting records until the first header
/// whose first byte is still erased. A record whose declared length runs
/// past the device ends the walk with `ok == false` (corrupt data).
pub open spec fn scan_from(f: Seq<u8>, pos: nat, slot: nat, erased: u8) -> ScanOut
    decreases f.len() + slot - pos,
        when 4 <= slot
        via scan_from_decreases
{
    if pos + 4 > f.len() {
        ScanOut { ok: true, recs: Seq::empty(), stop: pos }
    } else if f[pos as int] == erased {
        ScanOut { ok: true, recs: Seq::empty(), stop: pos }
    } else {
        let l = decode_len(f[pos as int + 1], f[pos as int + 2], f[pos as int + 3]);
        if pos + 4 + l > f.len() {
            ScanOut { ok: false, recs: Seq::empty(), stop: pos }
        } else {
            let r = Rec { off: pos, num: decode_number(f[pos as int], erased), len: l };
            let sub = scan_from(f, (pos + entry_size(l, slot)) as nat, slot, erased);
            if sub.ok {
                ScanOut { ok: true, recs: seq![r] + sub.recs, stop: sub.stop }
            } else {
                sub
            }
        }
    }
}

#[via_fn]
proof fn scan_from_decreases(f: Seq<u8>, pos: nat, slot: nat, erased: u8) {
    if pos + 4 <= f.len() && f[pos as int] != erased {
        let l = decode_len(f[pos as int + 1], f[pos as int + 2], f[pos as int + 3]);
        if pos + 4 + l <= f.len() {
            lemma_round_up_bounds((4 + l) as nat, slot);
        }
    }
}

/// The scan of a whole device.
pub open spec fn scan(f: Seq<u8>, slot: nat, erased: u8) -> ScanOut {
    scan_from(f, 0, slot, erased)
}

/// The device constants the store can work with: the word size drawn from
/// the supported range, pages made of whole slots, the device made of whole
/// pages, and a total size small enough that offset arithmetic stays well
/// inside `usize`.
pub open spec fn valid_geometry(size: usize, page: usize, word: usize) -> bool {
    &&& (word == 1 || word == 2 || word == 4 || word == 8 || word == 16 || word == 32)
    &&& 0 < page
    &&& page as int % slot_size(word as nat) as int == 0
    &&& page <= size
    &&& size as int % page as int == 0
    &&& size <= 0x1000_0000
}

/// All bytes of `f` in `[a, b)` hold the erased value.
pub open spec fn erased_between(f: Seq<u8>, a: nat, b: nat, erased: u8) -> bool {
    forall|i: int| a <= i < b && i < f.len() ==> f[i] == erased
}

/// A sum of two multiples of `g` is a multiple of `g`.
pub proof fn lemma_mod_sum(a: int, b: int, g: int)
    requires
        g >= 1,
        a >= 0,
        b >= 0,
        a % g == 0,
        b % g == 0,
    ensures
        (a + b) % g == 0,
{
    vstd::arithmetic::div_mod::lemma_add_mod_noop(a, b, g);
    vstd::arithmetic::div_mod::lemma_small_mod(0, g as nat);
}

/// A difference of two multiples of `g` is a multiple of `g`.
pub proof fn lemma_mod_diff(a: int, b: int, g: int)
    requires
        g >= 1,
        0 <= b <= a,
        a % g == 0,
        b % g == 0,
    ensures
        (a - b) % g == 0,
{
    vstd::arithmetic::div_mod::lemma_sub_mod_noop(a, b, g);
    vstd::arithmetic::div_mod::lemma_small_mod(0, g as nat);
}

/// Geometry facts that follow from `valid_geometry`: the slot divides the
/// page and the device, and the word divides the slot.
pub proof fn lemma_geometry(size: usize, page: usize, word: usize)
    requires
        valid_geometry(size, page, word),
    ensures
        4 <= slot_size(word as nat) <= 32,
        slot_size(word as nat) as int % word as int == 0,
        size as int % slot_size(word as nat) as int == 0,
        page >= slot_size(word as nat),
{
    let slot = slot_size(word as nat) as int;
    if word >= 4 {
        vstd::arithmetic::div_mod::lemma_mod_self_0(slot);
    } else {
        vstd::arithmetic::div_mod::lemma_mod_multiples_basic(4, 1);
        vstd::arithmetic::div_mod::lemma_mod_multiples_basic(2, 2);
    }
    if page < slot {
        vstd::arithmetic::div_mod::lemma_small_mod(page as nat, slot as nat);
    }
    let p = page as int;
    let s = size as int;
    vstd::arithmetic::div_mod::lemma_fundamental_div_mod(s, p);
    vstd::arithmetic::div_mod::lemma_fundamental_div_mod(p, slot);
    let k1 = s / p;
    let k2 = p / slot;
    assert(s == (k1 * k2) * slot) by (nonlinear_arith)
        requires
            s == p * k1,
            p == slot * k2,
    ;
    vstd::arithmetic::div_mod::lemma_mod_multiples_basic(k1 * k2, slot);
}

/// `r` is a faithful reading of the header bytes at its offset.
pub open spec fn rec_matches(f: Seq<u8>, r: Rec, slot: nat, erased: u8) -> bool {
    &&& r.off as int % slot as int == 0
    &&& r.off + 4 + r.len <= f.len()
    &&& f[r.off as int] != erased
    &&& r.num == decode_number(f[r.off as int], erased)
    &&& r.num != 0xFF
    &&& r.len == decode_len(f[r.off as int + 1], f[r.off as int + 2], f[r.off as int + 3])
    &&& r.len <= 0xFFFFFF
}

/// Structure of a completed scan: records sit in a gap-free chain starting
/// at `pos`, each is a faithful reading of its header, and the walk stops at
/// the first erased header byte (or the device end).
pub proof fn lemma_scan_props(f: Seq<u8>, pos: nat, slot: nat, erased: u8)
    requires
        4 <= slot,
        f.len() as int % slot as int == 0,
        pos as int % slot as int == 0,
        pos <= f.len(),
    ensures
        ({
            let sc = scan_from(f, pos, slot, erased);
            &&& (sc.recs.len() > 0 ==> sc.recs[0].off == pos)
            &&& forall|i: int|
                0 <= i < sc.recs.len() ==> rec_matches(f, #[trigger] sc.recs[i], slot, erased)
            &&& forall|i: int|
                0 <= i < sc.recs.len() ==> pos <= (#[trigger] sc.recs[i]).off
            &&& forall|i: int|
                0 <= i < sc.recs.len() - 1 ==> (#[trigger] sc.recs[i + 1]).off == rec_next(
                    sc.recs[i],
                    slot,
                )
            &&& (sc.ok ==> forall|i: int|
                0 <= i < sc.recs.len() ==> rec_next(#[trigger] sc.recs[i], slot) <= sc.stop)
            &&& (sc.ok ==> sc.stop == (if sc.recs.len() == 0 {
                pos as int
            } else {
                rec_next(sc.recs.last(), slot) as int
            }))
            &&& (sc.ok ==> pos <= sc.stop <= f.len() && sc.stop as int % slot as int == 0)
            &&& (sc.ok ==> (sc.stop == f.len() || f[sc.stop as int] == erased))
            &&& (!sc.ok ==> sc.recs.len() == 0)
        }),
    decreases f.len() + slot - pos,
{
    let sc = scan_from(f, pos, slot, erased);
    if pos + 4 > f.len() {
        // A stop this close to the device end can only be the end itself,
        // since both are multiples of the slot size.
        lemma_mod_diff(f.len() as int, pos as int, slot as int);
        vstd::arithmetic::div_mod::lemma_small_mod((f.len() - pos) as nat, slot);
        assert(pos == f.len());
    } else if f[pos as int] == erased {
    } else {
        let l = decode_len(f[pos as int + 1], f[pos as int + 2], f[pos as int + 3]);
        if pos + 4 + l > f.len() {
        } else {
            let r = Rec { off: pos, num: decode_number(f[pos as int], erased), len: l };
            let entry = entry_size(l, slot);
            lemma_round_up_bounds((4 + l) as nat, slot);
            lemma_mod_diff(f.len() as int, pos as int, slot as int);
            lemma_round_up_le((4 + l) as nat, (f.len() - pos) as nat, slot);
            let next = (pos + entry) as nat;
            lemma_mod_sum(pos as int, entry as int, slot as int);
            lemma_number_codec(f[pos as int], 0, erased);
            lemma_scan_props(f, next, slot, erased);
            let sub = scan_from(f, next, slot, erased);
            if sub.ok {
                assert(sc.recs == seq![r] + sub.recs);
                assert(sc.recs[0] == r);
                assert(forall|i: int|
                    1 <= i < sc.recs.len() ==> #[trigger] sc.recs[i] == sub.recs[i - 1]);
                assert(rec_next(r, slot) == next);
                assert forall|i: int| 0 <= i < sc.recs.len() - 1 implies (#[trigger] sc.recs[i
                    + 1]).off == rec_next(sc.recs[i], slot) by {
                    if i == 0 {
                        assert(sc.recs[1] == sub.recs[0]);
                    } else {
                        assert(sc.recs[i + 1] == sub.recs[i]);
                        assert(sc.recs[i] == sub.recs[i - 1]);
                        assert(sub.recs[(i - 1) + 1].off == rec_next(sub.recs[i - 1], slot));
                    }
                }
            }
        }
    }
}

/// A scan yields exactly a given record chain: if `rs` is a gap-free chain
/// of faithful header readings starting at `pos` and the byte after the
/// chain is erased (or the chain meets the device end), the walk from `pos`
/// finds precisely `rs`.
pub proof fn lemma_scan_layout(f: Seq<u8>, pos: nat, rs: Seq<Rec>, slot: nat, erased: u8)
    requires
        4 <= slot,
        pos <= f.len(),
        rs.len() > 0 ==> rs[0].off == pos,
        forall|i: int| 0 <= i < rs.len() ==> rec_matches(f, #[trigger] rs[i], slot, erased),
        forall|i: int|
            0 <= i < rs.len() - 1 ==> (#[trigger] rs[i + 1]).off == rec_next(rs[i], slot),
        rs.len() > 0 ==> rec_next(rs.last(), slot) <= f.len(),
        ({
            let stop = if rs.len() == 0 {
                pos as int
            } else {
                rec_next(rs.last(), slot) as int
            };
            stop + 4 > f.len() || f[stop] == erased
        }),
    ensures
        scan_from(f, pos, slot, erased) == (ScanOut {
            ok: true,
            recs: rs,
            stop: if rs.len() == 0 {
                pos
            } else {
                rec_next(rs.last(), slot)
            },
        }),
    decreases rs.len(),
{
    if rs.len() == 0 {
        assert(rs =~= Seq::<Rec>::empty());
    } else {
        let r = rs[0];
        let next = rec_next(r, slot);
        let tail = rs.skip(1);
        assert(forall|i: int| 0 <= i < tail.len() ==> #[trigger] tail[i] == rs[i + 1]);
        lemma_round_up_bounds((4 + r.len) as nat, slot);
        if tail.len() > 0 {
            assert(tail[0] == rs[1]);
            assert(tail.last() == rs.last());
        }
        lemma_scan_layout(f, next, tail, slot, erased);
        assert(rs =~= seq![r] + tail);
        assert(scan_from(f, pos, slot, erased).recs =~= rs);
    }
}

/// The record holding the current content of file `n`: the latest record
/// in layout order whose number is `n`.
pub open spec fn live_rec(recs: Seq<Rec>, n: u8) -> Option<Rec>
    decreases recs.len(),
{
    if recs.len() == 0 {
        None
    } else if recs.last().num == n {
        Some(recs.last())
    } else {
        live_rec(recs.drop_last(), n)
    }
}

/// Appending a record makes it live for its number and changes nothing for
/// the others.
pub proof fn lemma_live_push(rs: Seq<Rec>, r: Rec, n: u8)
    ensures
        live_rec(rs.push(r), n) == (if r.num == n {
            Some(r)
        } else {
            live_rec(rs, n)
        }),
{
    assert(rs.push(r).last() == r);
    assert(rs.push(r).drop_last() =~= rs);
}

/// The live record of a concatenation comes from the right part when it has
/// one, else from the left part.
pub proof fn lemma_live_concat(a: Seq<Rec>, b: Seq<Rec>, n: u8)
    ensures
        live_rec(a + b, n) == (match live_rec(b, n) {
            Some(r) => Some(r),
            None => live_rec(a, n),
        }),
    decreases b.len(),
{
    if b.len() == 0 {
        assert(a + b =~= a);
    } else {
        let b1 = b.drop_last();
        assert((a + b).last() == b.last());
        assert((a + b).drop_last() =~= a + b1);
        lemma_live_concat(a, b1, n);
    }
}

/// The live record is a member of the sequence, carries the requested
/// number, and nothing after it carries that number; absence means no
/// record carries the number at all.
pub proof fn lemma_live_mem(rs: Seq<Rec>, n: u8)
    ensures
        match live_rec(rs, n) {
            Some(r) => exists|i: int|
                0 <= i < rs.len() && rs[i] == r && r.num == n && (forall|j: int|
                    i < j < rs.len() ==> (#[trigger] rs[j]).num != n),
            None => forall|i: int| 0 <= i < rs.len() ==> (#[trigger] rs[i]).num != n,
        },
    decreases rs.len(),
{
    if rs.len() == 0 {
    } else if rs.last().num == n {
        let i = rs.len() - 1;
        assert(rs[i] == rs.last() && (forall|j: int| i < j < rs.len() ==> rs[j].num != n));
    } else {
        lemma_live_mem(rs.drop_last(), n);
        let rs1 = rs.drop_last();
        assert(forall|i: int| 0 <= i < rs1.len() ==> #[trigger] rs1[i] == rs[i]);
        match live_rec(rs1, n) {
            Some(r) => {
                let i = choose|i: int|
                    0 <= i < rs1.len() && rs1[i] == r && r.num == n && (forall|j: int|
                        i < j < rs1.len() ==> (#[trigger] rs1[j]).num != n);
                assert(rs[i] == r);
                assert forall|j: int| i < j < rs.len() implies (#[trigger] rs[j]).num != n by {
                    if j < rs.len() - 1 {
                        assert(rs1[j] == rs[j]);
                        assert(rs1[j].num != n);
                    } else {
                        assert(rs[j] == rs.last());
                    }
                }
            },
            None => {
                assert forall|i: int| 0 <= i < rs.len() implies (#[trigger] rs[i]).num != n by {
                    if i < rs.len() - 1 {
                        assert(rs1[i] == rs[i]);
                        assert(rs1[i].num != n);
                    } else {
                        assert(rs[i] == rs.last());
                    }
                }
            },
        }
    }
}

/// Bytes occupied by the live record of file `n`, zero when there is none.
pub open spec fn live_entry(recs: Seq<Rec>, n: u8, slot: nat) -> nat {
    match live_rec(recs, n) {
        Some(r) => entry_size(r.len, slot),
        None => 0,
    }
}

/// Sum of `live_entry` over the file numbers below `k`, skipping `except`.
pub open spec fn used_below(recs: Seq<Rec>, slot: nat, except: u8, k: nat) -> nat
    decreases k,
{
    if k == 0 {
        0
    } else {
        (used_below(recs, slot, except, (k - 1) as nat) + (if (k - 1) as u8 != except {
            live_entry(recs, (k - 1) as u8, slot)
        } else {
            0
        })) as nat
    }
}

/// The space the device still needs after discarding every stale record and
/// every record of file `except`: the sum of the slot-rounded sizes of the
/// live records of all other files.
pub open spec fn used_space_model(recs: Seq<Rec>, slot: nat, except: u8) -> nat {
    used_below(recs, slot, except, 255)
}

/// The records a compaction keeps, in layout order: for each file other
/// than `except`, the latest record carrying its number.
pub open spec fn keep_recs(recs: Seq<Rec>, except: u8) -> Seq<Rec>
    decreases recs.len(),
{
    if recs.len() == 0 {
        Seq::empty()
    } else {
        let h = recs[0];
        let t = recs.skip(1);
        (if h.num != except && live_rec(t, h.num) is None {
            seq![h]
        } else {
            Seq::empty()
        }) + keep_recs(t, except)
    }
}

/// Total bytes a chain of records occupies, padding included.
pub open spec fn sum_entries(recs: Seq<Rec>, slot: nat) -> nat
    decreases recs.len(),
{
    if recs.len() == 0 {
        0
    } else {
        (sum_entries(recs.drop_last(), slot) + entry_size(recs.last().len, slot)) as nat
    }
}

pub proof fn lemma_sum_cons(r: Rec, t: Seq<Rec>, slot: nat)
    ensures
        sum_entries(seq![r] + t, slot) == entry_size(r.len, slot) + sum_entries(t, slot),
    decreases t.len(),
{
    if t.len() == 0 {
        assert(seq![r] + t =~= seq![r]);
        assert(sum_entries(seq![r], slot) == entry_size(r.len, slot) + sum_entries(
            seq![r].drop_last(),
            slot,
        ));
        assert(seq![r].drop_last() =~= Seq::<Rec>::empty());
    } else {
        assert((seq![r] + t).last() == t.last());
        assert((seq![r] + t).drop_last() =~= seq![r] + t.drop_last());
        lemma_sum_cons(r, t.drop_last(), slot);
    }
}

/// Between two slot-aligned offsets there is room for at least one slot.
pub proof fn lemma_slot_step(pos: nat, limit: nat, slot: nat)
    requires
        1 <= slot,
        pos < limit,
        pos as int % slot as int == 0,
        limit as int % slot as int == 0,
    ensures
        pos + slot <= limit,
{
    lemma_mod_diff(limit as int, pos as int, slot as int);
    if limit - pos < slot {
        vstd::arithmetic::div_mod::lemma_small_mod((limit - pos) as nat, slot);
    }
}

/// Pairwise ordering of a scan's records.
pub proof fn lemma_chain_order(recs: Seq<Rec>, slot: nat)
    requires
        4 <= slot,
        forall|i: int|
            0 <= i < recs.len() - 1 ==> (#[trigger] recs[i + 1]).off == rec_next(recs[i], slot),
        forall|i: int| 0 <= i < recs.len() ==> entry_size((#[trigger] recs[i]).len, slot) >= 4,
    ensures
        forall|i: int, j: int|
            0 <= i < j < recs.len() ==> rec_next(#[trigger] recs[i], slot) <= (
            #[trigger] recs[j]).off,
    decreases recs.len(),
{
    if recs.len() > 1 {
        let t = recs.skip(1);
        assert(forall|i: int| 0 <= i < t.len() ==> #[trigger] t[i] == recs[i + 1]);
        lemma_chain_order(t, slot);
        assert forall|i: int, j: int| 0 <= i < j < recs.len() implies rec_next(
            #[trigger] recs[i],
            slot,
        ) <= (#[trigger] recs[j]).off by {
            if i == 0 {
                if j == 1 {
                } else {
                    assert(t[0] == recs[1] && t[j - 1] == recs[j]);
                    assert(rec_next(t[0], slot) <= t[j - 1].off);
                    assert(entry_size(recs[1].len, slot) >= 4);
                }
            } else {
                assert(t[i - 1] == recs[i] && t[j - 1] == recs[j]);
                assert(rec_next(t[i - 1], slot) <= t[j - 1].off);
            }
        }
    }
}

/// A gap-free chain occupies exactly the bytes between its start and the
/// slot after its last record.
pub proof fn lemma_chain_sum(recs: Seq<Rec>, slot: nat)
    requires
        recs.len() > 0,
        forall|i: int|
            0 <= i < recs.len() - 1 ==> (#[trigger] recs[i + 1]).off == rec_next(recs[i], slot),
    ensures
        rec_next(recs.last(), slot) == recs[0].off + sum_entries(recs, slot),
    decreases recs.len(),
{
    if recs.len() == 1 {
        assert(recs.drop_last() =~= Seq::<Rec>::empty());
        assert(sum_entries(Seq::<Rec>::empty(), slot) == 0);
        assert(sum_entries(recs.drop_last(), slot) == 0);
        assert(recs.last() == recs[0]);
        assert(sum_entries(recs, slot) == entry_size(recs[0].len, slot));
    } else {
        let t = recs.skip(1);
        assert(forall|i: int| 0 <= i < t.len() ==> #[trigger] t[i] == recs[i + 1]);
        assert(t.last() == recs.last());
        assert forall|i: int| 0 <= i < t.len() - 1 implies (#[trigger] t[i + 1]).off == rec_next(
            t[i],
            slot,
        ) by {
            assert(t[i] == recs[i + 1] && t[i + 1] == recs[i + 2]);
            assert(recs[i + 1 + 1].off == rec_next(recs[i + 1], slot));
        }
        lemma_chain_sum(t, slot);
        assert(t[0] == recs[1]);
        assert(t[0].off == rec_next(recs[0], slot));
        assert(recs =~= seq![recs[0]] + t);
        lemma_sum_cons(recs[0], t, slot);
    }
}

/// Keeping a subset of the records never takes more room.
pub proof fn lemma_keep_sum_le(recs: Seq<Rec>, except: u8, slot: nat)
    ensures
        sum_entries(keep_recs(recs, except), slot) <= sum_entries(recs, slot),
    decreases recs.len(),
{
    if recs.len() > 0 {
        let h = recs[0];
        let t = recs.skip(1);
        lemma_keep_sum_le(t, except, slot);
        assert(recs =~= seq![h] + t);
        lemma_sum_cons(h, t, slot);
        if h.num != except && live_rec(t, h.num) is None {
            lemma_sum_cons(h, keep_recs(t, except), slot);
        } else {
            assert(keep_recs(recs, except) =~= keep_recs(t, except));
        }
    }
}

/// Changing the records in a way that only affects file `m` shifts the
/// used-space sum by exactly file `m`'s contribution.
pub proof fn lemma_used_below_step(
    a: Seq<Rec>,
    b: Seq<Rec>,
    slot: nat,
    except: u8,
    m: u8,
    k: nat,
)
    requires
        k <= 256,
        forall|n: u8| n != m ==> live_entry(a, n, slot) == #[trigger] live_entry(b, n, slot),
    ensures
        used_below(a, slot, except, k) as int == used_below(b, slot, except, k) as int + (if m < k
            && m != except {
            live_entry(a, m, slot) as int - live_entry(b, m, slot) as int
        } else {
            0
        }),
    decreases k,
{
    if k > 0 {
        lemma_used_below_step(a, b, slot, except, m, (k - 1) as nat);
        let d = (k - 1) as u8;
        assert(d == k - 1);
        assert(d != m ==> live_entry(a, d, slot) == live_entry(b, d, slot));
    }
}

proof fn lemma_used_below_empty(slot: nat, except: u8, k: nat)
    ensures
        used_below(Seq::<Rec>::empty(), slot, except, k) == 0,
    decreases k,
{
    if k > 0 {
        lemma_used_below_empty(slot, except, (k - 1) as nat);
    }
}

/// The used-space sum grows with its range.
pub proof fn lemma_used_below_mono(recs: Seq<Rec>, slot: nat, except: u8, k1: nat, k2: nat)
    requires
        k1 <= k2,
    ensures
        used_below(recs, slot, except, k1) <= used_below(recs, slot, except, k2),
    decreases k2,
{
    if k1 < k2 && k2 > 0 {
        lemma_used_below_mono(recs, slot, except, k1, (k2 - 1) as nat);
    }
}

/// Space accounting: the records a compaction would keep occupy exactly
/// the used-space sum over file numbers.
pub proof fn lemma_space_accounting(recs: Seq<Rec>, slot: nat, except: u8)
    requires
        forall|i: int| 0 <= i < recs.len() ==> (#[trigger] recs[i]).num != 0xFF,
    ensures
        sum_entries(keep_recs(recs, except), slot) == used_space_model(recs, slot, except),
    decreases recs.len(),
{
    if recs.len() == 0 {
        assert(recs =~= Seq::<Rec>::empty());
        lemma_used_below_empty(slot, except, 255);
    } else {
        let h = recs[0];
        let t = recs.skip(1);
        assert(forall|i: int| 0 <= i < t.len() ==> #[trigger] t[i] == recs[i + 1]);
        assert(recs =~= seq![h] + t);
        lemma_space_accounting(t, slot, except);
        assert forall|n: u8| n != h.num implies live_entry(recs, n, slot) == #[trigger] live_entry(
            t,
            n,
            slot,
        ) by {
            lemma_live_concat(seq![h], t, n);
            assert(seq![h].len() == 1);
            assert(seq![h].last() == h);
            assert(seq![h].drop_last() =~= Seq::<Rec>::empty());
            assert(live_rec(Seq::<Rec>::empty(), n) is None);
            assert(live_rec(seq![h].drop_last(), n) is None);
            assert(live_rec(seq![h], n) is None);
            assert(live_rec(recs, n) == live_rec(seq![h] + t, n));
        }
        lemma_live_concat(seq![h], t, h.num);
        assert(seq![h].last() == h);
        assert(seq![h].drop_last() =~= Seq::<Rec>::empty());
        assert(live_rec(seq![h], h.num) == Some(h));
        lemma_used_below_step(recs, t, slot, except, h.num, 255);
        assert(recs[0].num != 0xFF);
        assert(h.num < 255);
        if h.num != except && live_rec(t, h.num) is None {
            lemma_sum_cons(h, keep_recs(t, except), slot);
            assert(keep_recs(recs, except) == seq![h] + keep_recs(t, except));
            assert(sum_entries(keep_recs(recs, except), slot) == entry_size(h.len, slot)
                + sum_entries(keep_recs(t, except), slot));
            assert(live_entry(recs, h.num, slot) == entry_size(h.len, slot));
            assert(live_entry(t, h.num, slot) == 0);
            assert(used_below(recs, slot, except, 255) as int == used_below(t, slot, except, 255)
                + entry_size(h.len, slot));
        } else {
            assert(keep_recs(recs, except) =~= keep_recs(t, except));
            if h.num != except {
                assert(live_entry(recs, h.num, slot) == live_entry(t, h.num, slot));
            }
            assert(used_below(recs, slot, except, 255) == used_below(t, slot, except, 255));
        }
    }
}

/// Divisibility is transitive.
pub proof fn lemma_mod_trans(a: int, g1: int, g2: int)
    requires
        g1 >= 1,
        g2 >= 1,
        a >= 0,
        a % g1 == 0,
        g1 % g2 == 0,
    ensures
        a % g2 == 0,
{
    vstd::arithmetic::div_mod::lemma_fundamental_div_mod(a, g1);
    vstd::arithmetic::div_mod::lemma_fundamental_div_mod(g1, g2);
    let k1 = a / g1;
    let k2 = g1 / g2;
    assert(a == (k1 * k2) * g2) by (nonlinear_arith)
        requires
            a == g1 * k1,
            g1 == g2 * k2,
    ;
    vstd::arithmetic::div_mod::lemma_mod_multiples_basic(k1 * k2, g2);
}

/// File `n` holds the same content in scan `rs2` of device `f2` as in scan
/// `rs1` of device `f1`: present in one exactly when present in the other,
/// with the same payload.
pub open spec fn preserves_file(
    f1: Seq<u8>,
    rs1: Seq<Rec>,
    f2: Seq<u8>,
    rs2: Seq<Rec>,
    n: u8,
) -> bool {
    match (live_rec(rs1, n), live_rec(rs2, n)) {
        (Option::None, Option::None) => true,
        (Option::Some(a), Option::Some(b)) => a.num == b.num && a.len == b.len && rec_payload(
            f2,
            b,
        ) == rec_payload(f1, a),
        _ => false,
    }
}

/// Whether a record is the live one for its number is decided by the
/// records after it: nothing later carries the number. Offsets identify
/// records when they increase strictly.
pub proof fn lemma_live_at(all: Seq<Rec>, i: int, n: u8)
    requires
        0 <= i < all.len(),
        all[i].num == n,
        forall|a: int, b: int|
            0 <= a < b < all.len() ==> (#[trigger] all[a]).off < (#[trigger] all[b]).off,
    ensures
        (live_rec(all, n) == Some(all[i])) <==> (live_rec(all.skip(i + 1), n) is None),
        live_rec(all, n) is Some,
        match live_rec(all, n) {
            Some(r) => r.off == all[i].off ==> r == all[i],
            None => true,
        },
{
    let t = all.skip(i + 1);
    let h = all.take(i + 1);
    assert(forall|k: int| 0 <= k < t.len() ==> #[trigger] t[k] == all[i + 1 + k]);
    assert(forall|k: int| 0 <= k < h.len() ==> #[trigger] h[k] == all[k]);
    assert(all =~= h + t);
    lemma_live_concat(h, t, n);
    assert(h.last() == all[i]);
    assert(live_rec(h, n) == Some(all[i]));
    lemma_live_mem(t, n);
    lemma_live_mem(all, n);
    match live_rec(t, n) {
        Some(r) => {
            let k = choose|k: int|
                0 <= k < t.len() && t[k] == r && r.num == n && (forall|j: int|
                    k < j < t.len() ==> (#[trigger] t[j]).num != n);
            assert(all[i + 1 + k] == r);
            assert(all[i].off < r.off);
            assert(live_rec(all, n) == Some(r));
        },
        None => {
            assert(live_rec(all, n) == Some(all[i]));
        },
    }
}

/// Record chains with the same lengths occupy the same room.
pub proof fn lemma_sum_same_lens(a: Seq<Rec>, b: Seq<Rec>, slot: nat)
    requires
        a.len() == b.len(),
        forall|j: int| 0 <= j < a.len() ==> (#[trigger] a[j]).len == (#[trigger] b[j]).len,
    ensures
        sum_entries(a, slot) == sum_entries(b, slot),
    decreases a.len(),
{
    if a.len() > 0 {
        let a1 = a.drop_last();
        let b1 = b.drop_last();
        assert(forall|j: int| 0 <= j < a1.len() ==> #[trigger] a1[j] == a[j]);
        assert(forall|j: int| 0 <= j < b1.len() ==> #[trigger] b1[j] == b[j]);
        lemma_sum_same_lens(a1, b1, slot);
        assert(a.last() == a[a.len() - 1] && b.last() == b[a.len() - 1]);
    }
}

/// One scanner step of the keep decision: the record at position `i` is
/// kept exactly when it is the live record of a file other than `except`,
/// and the kept records of the tail from `i` unfold accordingly.
pub proof fn lemma_keep_step(all: Seq<Rec>, i: int, slot: nat, except: u8)
    requires
        4 <= slot,
        0 <= i < all.len(),
        forall|a: int|
            0 <= a < all.len() - 1 ==> (#[trigger] all[a + 1]).off == rec_next(all[a], slot),
    ensures
        all.skip(i).len() > 0,
        all.skip(i)[0] == all[i],
        live_rec(all, all[i].num) is Some,
        (live_rec(all, all[i].num) == Some(all[i])) <==> (live_rec(
            all.skip(i + 1),
            all[i].num,
        ) is None),
        match live_rec(all, all[i].num) {
            Some(r) => r.off == all[i].off ==> r == all[i],
            None => true,
        },
        (all[i].num != except && live_rec(all.skip(i + 1), all[i].num) is None)
            ==> keep_recs(all.skip(i), except) == seq![all[i]] + keep_recs(
            all.skip(i + 1),
            except,
        ),
        !(all[i].num != except && live_rec(all.skip(i + 1), all[i].num) is None)
            ==> keep_recs(all.skip(i), except) == keep_recs(all.skip(i + 1), except),
{
    assert forall|a: int| 0 <= a < all.len() implies entry_size((#[trigger] all[a]).len, slot)
        >= 4 by {
        lemma_round_up_bounds((4 + all[a].len) as nat, slot);
    }
    lemma_chain_order(all, slot);
    assert forall|a: int, b: int| 0 <= a < b < all.len() implies (#[trigger] all[a]).off < (
    #[trigger] all[b]).off by {
        assert(rec_next(all[a], slot) <= all[b].off);
    }
    lemma_live_at(all, i, all[i].num);
    assert(forall|k: int| 0 <= k < all.skip(i).len() ==> #[trigger] all.skip(i)[k] == all[i + k]);
    assert(all.skip(i).skip(1) =~= all.skip(i + 1));
}

/// For every file other than `except`, the kept records hold exactly the
/// file's live record.
pub proof fn lemma_live_keep(all: Seq<Rec>, except: u8, n: u8)
    requires
        n != except,
    ensures
        live_rec(keep_recs(all, except), n) == live_rec(all, n),
    decreases all.len(),
{
    if all.len() == 0 {
        assert(all =~= Seq::<Rec>::empty());
    } else {
        let h = all[0];
        let t = all.skip(1);
        lemma_live_keep(t, except, n);
        assert(all =~= seq![h] + t);
        lemma_live_concat(seq![h], t, n);
        assert(seq![h].len() == 1);
        assert(seq![h].last() == h);
        assert(seq![h].drop_last() =~= Seq::<Rec>::empty());
        assert(live_rec(Seq::<Rec>::empty(), n) is None);
        assert(live_rec(seq![h].drop_last(), n) is None);
        if h.num != except && live_rec(t, h.num) is None {
            lemma_live_concat(seq![h], keep_recs(t, except), n);
            assert(keep_recs(all, except) == seq![h] + keep_recs(t, except));
            if live_rec(t, n) is Some {
                assert(live_rec(keep_recs(t, except), n) == live_rec(t, n));
                assert(live_rec(all, n) == live_rec(t, n));
            } else {
                assert(live_rec(keep_recs(t, except), n) is None);
                assert(live_rec(seq![h], n) == (if h.num == n {
                    Some(h)
                } else {
                    Option::<Rec>::None
                }));
                assert(live_rec(keep_recs(all, except), n) == live_rec(seq![h], n));
                assert(live_rec(all, n) == live_rec(seq![h], n));
            }
        } else {
            assert(keep_recs(all, except) =~= keep_recs(t, except));
            if h.num == n {
                assert(live_rec(t, h.num) is Some);
            }
        }
    }
}

/// Chains whose records carry the same numbers position their live records
/// at the same index.
pub proof fn lemma_live_parallel(a: Seq<Rec>, b: Seq<Rec>, n: u8)
    requires
        a.len() == b.len(),
        forall|j: int| 0 <= j < a.len() ==> (#[trigger] a[j]).num == (#[trigger] b[j]).num,
    ensures
        match (live_rec(a, n), live_rec(b, n)) {
            (Option::None, Option::None) => true,
            (Option::Some(x), Option::Some(y)) => exists|j: int|
                0 <= j < a.len() && #[trigger] a[j] == x && #[trigger] b[j] == y,
            _ => false,
        },
    decreases a.len(),
{
    if a.len() > 0 {
        let a1 = a.drop_last();
        let b1 = b.drop_last();
        assert(forall|j: int| 0 <= j < a1.len() ==> #[trigger] a1[j] == a[j]);
        assert(forall|j: int| 0 <= j < b1.len() ==> #[trigger] b1[j] == b[j]);
        assert(a.last() == a[a.len() - 1] && b.last() == b[a.len() - 1]);
        if a.last().num == n {
        } else {
            lemma_live_parallel(a1, b1, n);
            match (live_rec(a1, n), live_rec(b1, n)) {
                (Option::Some(x), Option::Some(y)) => {
                    let j = choose|j: int|
                        0 <= j < a1.len() && #[trigger] a1[j] == x && #[trigger] b1[j] == y;
                    assert(a[j] == x && b[j] == y);
                },
                _ => {},
            }
        }
    }
}

/// Read-your-writes: appending a record whose payload is `d` makes it the
/// live version of its file, so the next read of that file returns `d`.
pub proof fn lemma_read_your_writes(rs: Seq<Rec>, f: Seq<u8>, b: Rec, d: Seq<u8>)
    requires
        rec_payload(f, b) == d,
    ensures
        live_rec(rs.push(b), b.num) == Some(b),
        match live_rec(rs.push(b), b.num) {
            Some(x) => rec_payload(f, x) == d,
            None => false,
        },
{
    lemma_live_push(rs, b, b.num);
}

/// The last write wins: appending a record makes it the live version of
/// its file, and leaves the live version of every other file unchanged.
pub proof fn lemma_last_write_wins(rs: Seq<Rec>, b: Rec, n: u8)
    ensures
        live_rec(rs.push(b), b.num) == Some(b),
        n != b.num ==> live_rec(rs.push(b), n) == live_rec(rs, n),
{
    lemma_live_push(rs, b, b.num);
    lemma_live_push(rs, b, n);
}

} // verus!
