use crate::geometry::ADDR_LEN;
use vstd::arithmetic::power2::{lemma2_to64, lemma_pow2_adds, lemma_pow2_pos, pow2};
use vstd::bits::{lemma_u32_low_bits_mask_is_mod, lemma_u32_pow2_no_overflow, lemma_u32_shr_is_div, low_bits_mask};
use vstd::prelude::*;

verus! {

/// A countdown of cycles that are still to be spent.
pub struct Counter {
    pub value: u32,
}

impl Counter {
    /// A counter that has already run out.
    pub fn new() -> (c: Self)
        ensures
            c.value == 0,
    {
        Counter { value: 0 }
    }

    /// Spends one cycle. Returns `false`, and changes nothing, when the counter had run out.
    pub fn update(&mut self) -> (busy: bool)
        ensures
            busy == (old(self).value != 0),
            final(self).value == if old(self).value == 0 {
                0
            } else {
                old(self).value - 1
            },
    {
        if self.value == 0 {
            false
        } else {
            self.value = self.value - 1;
            true
        }
    }
}

/// How a 32-bit address splits into tag, set index and word offset, highest bits first.
#[derive(Clone, Copy, Debug)]
pub struct AddressLayout {
    offset_length: usize,
    index_length: usize,
    tag_length: usize,
    // size of a cache set in bytes
    set_size: usize,
    // size of a block in bytes
    block_size: usize,
}

const ADDR_MASK_BLANK: u32 = 0xffff_ffff;

proof fn lemma_middle_field(addr: u32, high: u32, low: u32)
    requires
        low <= high < 32,
    ensures
        ((addr & ((0xffff_ffffu32 >> high) << low)) >> low) == (addr as nat / pow2(low as nat))
            % pow2((32 - high) as nat),
{
    let shifted: u32 = addr >> low;
    let width: nat = (32 - high) as nat;
    assert(((addr & ((0xffff_ffffu32 >> high) << low)) >> low) == (addr >> low) & (0xffff_ffffu32
        >> high)) by (bit_vector)
        requires
            low <= high < 32,
    ;
    lemma_u32_shr_is_div(addr, low);
    lemma2_to64();
    if high == 0 {
        assert(shifted & 0xffff_ffffu32 == shifted) by (bit_vector);
        assert(0xffff_ffffu32 >> 0 == 0xffff_ffffu32) by (bit_vector);
        assert(shifted as nat % pow2(32) == shifted);
    } else {
        lemma_u32_pow2_no_overflow(width);
        lemma_u32_shr_is_div(0xffff_ffffu32, high);
        lemma_pow2_adds(width, high as nat);
        lemma_pow2_pos(high as nat);
        assert(0xffff_ffffu32 as nat / pow2(high as nat) == low_bits_mask(width)) by (nonlinear_arith)
            requires
                pow2(width) * pow2(high as nat) == 0x1_0000_0000,
                pow2(high as nat) > 0,
                pow2(width) > 0,
                low_bits_mask(width) == pow2(width) - 1,
        ;
        lemma_u32_low_bits_mask_is_mod(shifted, width);
    }
}

impl AddressLayout {
    /// Width of the word offset in bits.
    pub closed spec fn offset_bits(&self) -> nat {
        self.offset_length as nat
    }

    /// Width of the set index in bits.
    pub closed spec fn index_bits(&self) -> nat {
        self.index_length as nat
    }

    /// Width of the tag in bits.
    pub closed spec fn tag_bits(&self) -> nat {
        self.tag_length as nat
    }

    /// Size of a set in bytes.
    pub closed spec fn set_bytes(&self) -> nat {
        self.set_size as nat
    }

    /// Size of a block in bytes.
    pub closed spec fn block_bytes(&self) -> nat {
        self.block_size as nat
    }

    /// Number of blocks in a set.
    pub open spec fn ways(&self) -> nat {
        self.set_bytes() / self.block_bytes()
    }

    /// Number of sets that the index field can name.
    pub open spec fn sets(&self) -> nat {
        pow2(self.index_bits())
    }

    /// The three fields fill an address exactly, and a block is not empty.
    pub open spec fn wf(&self) -> bool {
        &&& self.offset_bits() + self.index_bits() + self.tag_bits() == ADDR_LEN
        &&& self.block_bytes() > 0
    }

    /// The set that `addr` belongs to: the middle field.
    pub open spec fn index_of(&self, addr: u32) -> nat {
        (addr as nat / pow2(self.offset_bits())) % pow2(self.index_bits())
    }

    /// The tag of `addr`: the high field.
    pub open spec fn tag_of(&self, addr: u32) -> u32 {
        (addr as nat / pow2(self.offset_bits() + self.index_bits())) as u32
    }

    /// Position in a flat table of way `block_idx` of set `set_idx`.
    pub open spec fn flat_of(&self, set_idx: nat, block_idx: nat) -> nat {
        set_idx * self.ways() + block_idx
    }

    /// The layout with the given field widths and sizes.
    pub closed spec fn with(
        offset_length: usize,
        index_length: usize,
        tag_length: usize,
        set_size: usize,
        block_size: usize,
    ) -> AddressLayout {
        AddressLayout { offset_length, index_length, tag_length, set_size, block_size }
    }

    pub fn new(
        offset_length: usize,
        index_length: usize,
        tag_length: usize,
        set_size: usize,
        block_size: usize,
    ) -> (layout: AddressLayout)
        ensures
            layout == Self::with(offset_length, index_length, tag_length, set_size, block_size),
            layout.offset_bits() == offset_length,
            layout.index_bits() == index_length,
            layout.tag_bits() == tag_length,
            layout.set_bytes() == set_size,
            layout.block_bytes() == block_size,
    {
        AddressLayout { offset_length, index_length, tag_length, set_size, block_size }
    }

    /// What a layout is made with is what it has.
    pub proof fn lemma_with(
        offset_length: usize,
        index_length: usize,
        tag_length: usize,
        set_size: usize,
        block_size: usize,
    )
        ensures
            ({
                let layout = Self::with(
                    offset_length,
                    index_length,
                    tag_length,
                    set_size,
                    block_size,
                );
                &&& layout.offset_bits() == offset_length
                &&& layout.index_bits() == index_length
                &&& layout.tag_bits() == tag_length
                &&& layout.set_bytes() == set_size
                &&& layout.block_bytes() == block_size
            }),
    {
    }

    /// The index of an address is below the number of sets, and its tag fits the tag field.
    pub proof fn lemma_fields_bounded(&self, addr: u32)
        requires
            self.wf(),
        ensures
            self.index_of(addr) < self.sets(),
            self.tag_of(addr) == addr as nat / pow2(self.offset_bits() + self.index_bits()),
            self.tag_of(addr) < pow2(self.tag_bits()),
    {
        let low = self.offset_bits() + self.index_bits();
        lemma_pow2_pos(self.index_bits());
        lemma_pow2_pos(low);
        lemma_pow2_adds(low, self.tag_bits());
        lemma2_to64();
        let t = addr as nat / pow2(low);
        let p = pow2(low);
        let q = pow2(self.tag_bits());
        assert(t < q && t <= addr) by (nonlinear_arith)
            requires
                t == addr as nat / p,
                p > 0,
                p * q == 0x1_0000_0000,
                addr < 0x1_0000_0000,
        ;
    }

    pub fn index(&self, addr: u32) -> (i: usize)
        requires
            self.wf(),
        ensures
            i == self.index_of(addr),
    {
        if self.index_length == 0 {
            proof {
                lemma2_to64();
            }
            return 0;
        }
        let right_offset: u32 = self.offset_length as u32;
        let left_offset: u32 = (self.tag_length + self.offset_length) as u32;
        let mask: u32 = (ADDR_MASK_BLANK >> left_offset) << right_offset;
        let masked_addr: u32 = addr & mask;
        proof {
            lemma_middle_field(addr, left_offset, right_offset);
        }
        (masked_addr >> right_offset) as usize
    }

    pub fn tag(&self, addr: u32) -> (t: u32)
        requires
            self.wf(),
        ensures
            t == self.tag_of(addr),
    {
        if self.tag_length == 0 {
            proof {
                self.lemma_fields_bounded(addr);
                lemma2_to64();
            }
            return 0;
        }
        let right_offset: u32 = (self.offset_length + self.index_length) as u32;
        proof {
            self.lemma_fields_bounded(addr);
            lemma_u32_shr_is_div(addr, right_offset);
        }
        addr >> right_offset
    }

    pub fn nested_to_flat(&self, set_idx: usize, block_idx: usize) -> (flat: usize)
        requires
            self.block_bytes() > 0,
            self.flat_of(set_idx as nat, block_idx as nat) <= usize::MAX,
        ensures
            flat == self.flat_of(set_idx as nat, block_idx as nat),
    {
        let ways: usize = self.set_size / self.block_size;
        proof {
            assert(set_idx * ways <= set_idx * ways + block_idx);
        }
        set_idx * ways + block_idx
    }
}

} // verus!
