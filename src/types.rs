//! Fixed-width values of the EVM: 160-bit addresses and 256-bit words.

use vstd::prelude::*;

verus! {

/// A 160-bit account address, as three big-endian parts.
#[derive(Clone, Copy, Debug, PartialEq, Eq, Hash, PartialOrd, Ord, Structural)]
pub struct Address {
    /// Bits 128 to 159.
    pub hi: u32,
    /// Bits 64 to 127.
    pub mid: u64,
    /// Bits 0 to 63.
    pub lo: u64,
}

/// A 256-bit word (a storage slot, a slot value, a balance or a hash), as four
/// big-endian 64-bit limbs.
#[derive(Clone, Copy, Debug, PartialEq, Eq, Hash, PartialOrd, Ord, Structural)]
pub struct Word {
    pub l3: u64,
    pub l2: u64,
    pub l1: u64,
    pub l0: u64,
}

/// Address order: numeric, which is the order of the big-endian bytes.
pub open spec fn addr_lt(a: Address, b: Address) -> bool {
    a.hi < b.hi || (a.hi == b.hi && (a.mid < b.mid || (a.mid == b.mid && a.lo < b.lo)))
}

/// The address held in the low 160 bits of a word.
pub open spec fn word_to_address(w: Word) -> Address {
    Address { hi: (w.l2 % 0x1_0000_0000) as u32, mid: w.l1, lo: w.l0 }
}

impl Address {
    pub fn new(hi: u32, mid: u64, lo: u64) -> (r: Address)
        ensures
            r == (Address { hi, mid, lo }),
    {
        Address { hi, mid, lo }
    }

    /// Whether `self` comes before `other` in address order.
    pub fn lt(&self, other: &Address) -> (r: bool)
        ensures
            r == addr_lt(*self, *other),
    {
        self.hi < other.hi || (self.hi == other.hi && (self.mid < other.mid || (self.mid
            == other.mid && self.lo < other.lo)))
    }

    /// The address that a stack word names: its low 160 bits.
    pub fn from_word(w: Word) -> (r: Address)
        ensures
            r == word_to_address(w),
    {
        Address { hi: (w.l2 % 0x1_0000_0000) as u32, mid: w.l1, lo: w.l0 }
    }
}

impl Word {
    pub fn new(l3: u64, l2: u64, l1: u64, l0: u64) -> (r: Word)
        ensures
            r == (Word { l3, l2, l1, l0 }),
    {
        Word { l3, l2, l1, l0 }
    }

    /// The word of a small integer.
    pub fn from_u64(v: u64) -> (r: Word)
        ensures
            r == (Word { l3: 0, l2: 0, l1: 0, l0: v }),
    {
        Word { l3: 0, l2: 0, l1: 0, l0: v }
    }

    /// The word that holds an address in its low 160 bits.
    pub fn from_address(a: Address) -> (r: Word)
        ensures
            r == (Word { l3: 0, l2: a.hi as u64, l1: a.mid, l0: a.lo }),
            word_to_address(r) == a,
    {
        Word { l3: 0, l2: a.hi as u64, l1: a.mid, l0: a.lo }
    }
}

} // verus!
