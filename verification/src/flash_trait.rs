//! The flash device abstraction the store is built over: four device
//! constants and three operations, with alignment and erased-value
//! contracts.
use crate::model::{
    erased_between, lemma_round_up_bounds, round_up_to, valid_geometry,
};
use vstd::prelude::*;

verus! {

/// Rounds `val` up to the next multiple of `granularity`.
pub fn round_up(val: usize, granularity: usize) -> (r: usize)
    requires
        1 <= val,
        1 <= granularity,
        val + granularity <= usize::MAX,
    ensures
        r == round_up_to(val as nat, granularity as nat),
{
    proof {
        lemma_round_up_bounds(val as nat, granularity as nat);
        vstd::arithmetic::div_mod::lemma_div_plus_one((val - 1) as int, granularity as int);
    }
    ((val - 1) / granularity + 1) * granularity
}

/// Rounds `val` down to a multiple of `granularity`.
pub fn round_down(val: usize, granularity: usize) -> (r: usize)
    requires
        1 <= granularity,
    ensures
        r == (val as int / granularity as int) * granularity,
        r <= val,
        r as int % granularity as int == 0,
{
    proof {
        assert((val as int / granularity as int) * granularity as int <= val as int)
            by (nonlinear_arith)
            requires
                granularity >= 1,
                val >= 0,
        ;
        vstd::arithmetic::div_mod::lemma_mod_multiples_basic(
            val as int / granularity as int,
            granularity as int,
        );
    }
    (val / granularity) * granularity
}

/// A raw flash-like device: a linear byte array erased by whole pages and
/// written by whole words.
///
/// `contents` is the device as a byte sequence and `erase_counts` tallies
/// how often each page has been erased. Writing may only target erased
/// bytes (rewriting without an erase in between has device-defined
/// behavior, and the store never does it), and a write covers a whole
/// number of words: bytes between the end of the data and the end of the
/// last word are left undefined.
pub trait FlashTrait: Sized {
    /// Total device bytes.
    spec fn size_spec() -> usize;

    /// Erase granularity in bytes.
    spec fn page_size_spec() -> usize;

    /// Write granularity in bytes.
    spec fn word_size_spec() -> usize;

    /// The byte every erased position holds.
    spec fn erased_value_spec() -> u8;

    /// The device contents.
    spec fn contents(&self) -> Seq<u8>;

    /// How many times each page has been erased.
    spec fn erase_counts(&self) -> Seq<nat>;

    /// The device representation invariant.
    spec fn inv(&self) -> bool;

    /// A valid device has workable constants, and its contents and erase
    /// tallies cover exactly the device.
    proof fn lemma_inv(&self)
        requires
            self.inv(),
        ensures
            valid_geometry(Self::size_spec(), Self::page_size_spec(), Self::word_size_spec()),
            self.contents().len() == Self::size_spec(),
            self.erase_counts().len() == Self::size_spec() as int / Self::page_size_spec() as int,
    ;

    fn size() -> (r: usize)
        ensures
            r == Self::size_spec(),
    ;

    fn page_size() -> (r: usize)
        ensures
            r == Self::page_size_spec(),
    ;

    fn word_size() -> (r: usize)
        ensures
            r == Self::word_size_spec(),
    ;

    fn erased_value() -> (r: u8)
        ensures
            r == Self::erased_value_spec(),
    ;

    /// Erases the page starting at `address`: afterwards every byte of the
    /// page holds the erased value and the page's erase tally is one
    /// higher.
    fn erase_page(&mut self, address: usize)
        requires
            old(self).inv(),
            address as int % Self::page_size_spec() as int == 0,
            address + Self::page_size_spec() <= Self::size_spec(),
        ensures
            final(self).inv(),
            final(self).contents().len() == old(self).contents().len(),
            forall|i: int|
                0 <= i < final(self).contents().len() ==> final(self).contents()[i] == (if address
                    <= i < address + Self::page_size_spec() {
                    Self::erased_value_spec()
                } else {
                    old(self).contents()[i]
                }),
            final(self).erase_counts() == old(self).erase_counts().update(
                address as int / Self::page_size_spec() as int,
                (old(self).erase_counts()[address as int / Self::page_size_spec() as int]
                    + 1) as nat,
            ),
    ;

    /// Writes `data` at `address`, an erased word-aligned range. The bytes
    /// of `data` land as given; the rest of the final word is undefined.
    fn write(&mut self, address: usize, data: &Vec<u8>)
        requires
            old(self).inv(),
            address as int % Self::word_size_spec() as int == 0,
            data@.len() >= 1,
            address + round_up_to(data@.len() as nat, Self::word_size_spec() as nat)
                <= Self::size_spec(),
            erased_between(
                old(self).contents(),
                address as nat,
                (address + round_up_to(
                    data@.len() as nat,
                    Self::word_size_spec() as nat,
                )) as nat,
                Self::erased_value_spec(),
            ),
        ensures
            final(self).inv(),
            final(self).contents().len() == old(self).contents().len(),
            final(self).erase_counts() == old(self).erase_counts(),
            forall|i: int|
                0 <= i < final(self).contents().len() && !(address <= i < address + round_up_to(
                    data@.len() as nat,
                    Self::word_size_spec() as nat,
                )) ==> final(self).contents()[i] == old(self).contents()[i],
            forall|i: int|
                address <= i < address + data@.len() ==> final(self).contents()[i] == data@[i
                    - address],
    ;

    /// Reads `count` bytes starting at `address`.
    fn read(&mut self, address: usize, count: usize) -> (r: Vec<u8>)
        requires
            old(self).inv(),
            address + count <= Self::size_spec(),
        ensures
            final(self).inv(),
            final(self).contents() == old(self).contents(),
            final(self).erase_counts() == old(self).erase_counts(),
            r@ == old(self).contents().subrange(address as int, address + count),
    ;
}

} // verus!
