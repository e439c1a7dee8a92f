use vstd::prelude::*;

verus! {

/// The arithmetic unit of a core: the cycles that its computation still takes.
pub struct Alu {
    cnt: u32,
}

impl Alu {
    /// Cycles that the computation still takes.
    pub closed spec fn left(&self) -> u32 {
        self.cnt
    }

    pub fn new() -> (alu: Self)
        ensures
            alu.left() == 0,
    {
        Alu { cnt: 0 }
    }

    pub fn set(&mut self, value: u32)
        ensures
            final(self).left() == value,
    {
        self.cnt = value;
    }

    pub fn get(&self) -> (value: u32)
        ensures
            value == self.left(),
    {
        self.cnt
    }

    pub fn increase(&mut self, value: u32)
        requires
            old(self).left() + value <= u32::MAX,
        ensures
            final(self).left() == old(self).left() + value,
    {
        self.cnt += value;
    }

    /// Spends one cycle. Returns `false`, and changes nothing, when no cycle was left.
    pub fn update(&mut self) -> (busy: bool)
        ensures
            busy == (old(self).left() != 0),
            final(self).left() == if old(self).left() == 0 {
                0
            } else {
                old(self).left() - 1
            },
    {
        if self.cnt == 0 {
            false
        } else {
            self.cnt = self.cnt - 1;
            true
        }
    }
}

} // verus!
