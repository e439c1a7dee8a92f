use vstd::prelude::*;

verus! {

/// Recency stamps for every slot of a cache, set by set. A slot that was used later has
/// a higher stamp; the slot to evict from a set is the one with the lowest.
pub struct Lru {
    storage: Vec<usize>,
    ways: usize,
    cnt: usize,
}

/// The stamps as a value.
#[verifier::ext_equal]
pub struct LruView {
    /// The stamp of way `w` of set `s` is at `s * ways + w`.
    pub storage: Seq<usize>,
    /// Number of slots in a set.
    pub ways: usize,
    /// The stamp that the next use gets.
    pub cnt: usize,
}

/// The first position in `lo..hi` whose stamp no other position in range undercuts; `lo`
/// for an empty range.
pub open spec fn least_recent(stamps: Seq<usize>, lo: int, hi: int) -> int
    decreases hi - lo,
{
    if hi - lo <= 1 {
        lo
    } else {
        let rest = least_recent(stamps, lo, hi - 1);
        if stamps[hi - 1] < stamps[rest] {
            hi - 1
        } else {
            rest
        }
    }
}

/// `least_recent` lies in range, no stamp in range is lower than its stamp, and every
/// stamp before it is higher.
pub proof fn lemma_least_recent(stamps: Seq<usize>, lo: int, hi: int)
    requires
        lo < hi,
    ensures
        lo <= least_recent(stamps, lo, hi) < hi,
        forall|j: int| lo <= j < hi ==> stamps[least_recent(stamps, lo, hi)] <= #[trigger] stamps[j],
        forall|j: int|
            lo <= j < least_recent(stamps, lo, hi) ==> stamps[least_recent(stamps, lo, hi)]
                < #[trigger] stamps[j],
    decreases hi - lo,
{
    if hi - lo > 1 {
        lemma_least_recent(stamps, lo, hi - 1);
    }
}

impl LruView {
    /// Every stamp lies below the stamp that the next use gets.
    pub open spec fn wf(self) -> bool {
        forall|i: int| 0 <= i < self.storage.len() ==> #[trigger] self.storage[i] < self.cnt
    }

    /// The position of way `block_idx` of set `set_idx`.
    pub open spec fn slot(self, set_idx: int, block_idx: int) -> int {
        set_idx * self.ways + block_idx
    }

    /// Whether way `block_idx` of set `set_idx` exists.
    pub open spec fn has(self, set_idx: int, block_idx: int) -> bool {
        &&& 0 <= block_idx < self.ways
        &&& 0 <= set_idx
        &&& self.slot(set_idx, block_idx) < self.storage.len()
    }

    /// The stamps after a use of the slot: it gets the highest stamp so far.
    pub open spec fn touched(self, set_idx: int, block_idx: int) -> LruView {
        LruView {
            storage: self.storage.update(self.slot(set_idx, block_idx), self.cnt),
            cnt: (self.cnt + 1) as usize,
            ..self
        }
    }

    /// The stamps after the slot was given up: it gets the lowest stamp there is.
    pub open spec fn eliminated(self, set_idx: int, block_idx: int) -> LruView {
        LruView { storage: self.storage.update(self.slot(set_idx, block_idx), 0), ..self }
    }

    /// The way of set `set_idx` to evict: the first one with the lowest stamp.
    pub open spec fn victim(self, set_idx: int) -> int {
        least_recent(self.storage, set_idx * self.ways, set_idx * self.ways + self.ways)
            - set_idx * self.ways
    }

    /// The victim is a way of the set; no way of the set has a lower stamp, and every
    /// way before it has a higher one.
    pub proof fn lemma_victim(self, set_idx: int)
        requires
            self.ways > 0,
            0 <= set_idx,
        ensures
            0 <= self.victim(set_idx) < self.ways,
            forall|w: int|
                0 <= w < self.ways ==> self.storage[self.slot(set_idx, self.victim(set_idx))]
                    <= #[trigger] self.storage[self.slot(set_idx, w)],
            forall|w: int|
                0 <= w < self.victim(set_idx) ==> self.storage[self.slot(
                    set_idx,
                    self.victim(set_idx),
                )] < #[trigger] self.storage[self.slot(set_idx, w)],
    {
        let lo = set_idx * self.ways;
        lemma_least_recent(self.storage, lo, lo + self.ways);
        let v = least_recent(self.storage, lo, lo + self.ways);
        assert forall|w: int| 0 <= w < self.ways implies self.storage[self.slot(
            set_idx,
            self.victim(set_idx),
        )] <= #[trigger] self.storage[self.slot(set_idx, w)] by {
            assert(self.storage[v] <= self.storage[lo + w]);
        }
        assert forall|w: int| 0 <= w < self.victim(set_idx) implies self.storage[self.slot(
            set_idx,
            self.victim(set_idx),
        )] < #[trigger] self.storage[self.slot(set_idx, w)] by {
            assert(self.storage[v] < self.storage[lo + w]);
        }
    }
}

impl LruView {
    /// A use keeps the stamps below the next stamp and gives the slot used a stamp
    /// above every other; in a set of two ways or more that slot is then not the one to
    /// evict.
    pub proof fn lemma_touched(self, set_idx: int, block_idx: int)
        requires
            self.wf(),
            self.has(set_idx, block_idx),
            self.cnt < usize::MAX,
        ensures
            self.touched(set_idx, block_idx).wf(),
            forall|i: int|
                0 <= i < self.storage.len() && i != self.slot(set_idx, block_idx)
                    ==> #[trigger] self.touched(set_idx, block_idx).storage[i] < self.touched(
                    set_idx,
                    block_idx,
                ).storage[self.slot(set_idx, block_idx)],
            self.ways >= 2 && self.has(set_idx, self.ways - 1) ==> self.touched(
                set_idx,
                block_idx,
            ).victim(set_idx) != block_idx,
    {
        let after = self.touched(set_idx, block_idx);
        let slot = self.slot(set_idx, block_idx);
        assert(0 <= set_idx * self.ways) by (nonlinear_arith)
            requires
                0 <= set_idx,
                0 <= self.ways,
        ;
        assert forall|i: int| 0 <= i < after.storage.len() implies #[trigger] after.storage[i]
            < after.cnt by {
            if i != slot {
                assert(self.storage[i] < self.cnt);
            }
        }
        assert forall|i: int| 0 <= i < self.storage.len() && i != slot implies #[trigger] after.storage[i]
            < after.storage[slot] by {
            assert(self.storage[i] < self.cnt);
        }
        if self.ways >= 2 && self.has(set_idx, self.ways - 1) {
            after.lemma_victim(set_idx);
            let w: int = if block_idx == 0 {
                1
            } else {
                0
            };
            let other = after.slot(set_idx, w);
            assert(after.storage[other] < after.storage[slot]);
            assert(after.storage[after.slot(set_idx, after.victim(set_idx))] <= after.storage[other]);
        }
    }

    /// Giving a slot up keeps the stamps below the next stamp.
    pub proof fn lemma_eliminated(self, set_idx: int, block_idx: int)
        requires
            self.wf(),
            self.has(set_idx, block_idx),
        ensures
            self.eliminated(set_idx, block_idx).wf(),
    {
        let after = self.eliminated(set_idx, block_idx);
        let slot = self.slot(set_idx, block_idx);
        assert(0 <= set_idx * self.ways) by (nonlinear_arith)
            requires
                0 <= set_idx,
                0 <= self.ways,
        ;
        assert(self.storage[slot] < self.cnt);
        assert forall|i: int| 0 <= i < after.storage.len() implies #[trigger] after.storage[i]
            < after.cnt by {
            if i != slot {
                assert(self.storage[i] < self.cnt);
            }
        }
    }
}

impl View for Lru {
    type V = LruView;

    closed spec fn view(&self) -> LruView {
        LruView { storage: self.storage@, ways: self.ways, cnt: self.cnt }
    }
}

impl Lru {
    pub fn new(num_sets: usize, associativity: usize) -> (lru: Lru)
        requires
            num_sets * associativity <= usize::MAX,
        ensures
            lru@ == (LruView {
                storage: Seq::new((num_sets * associativity) as nat, |i: int| 0usize),
                ways: associativity,
                cnt: 1,
            }),
            lru@.wf(),
    {
        let n: usize = num_sets * associativity;
        let mut storage: Vec<usize> = Vec::new();
        let mut i: usize = 0;
        while i < n
            invariant
                i <= n,
                storage@ == Seq::new(i as nat, |j: int| 0usize),
            decreases n - i,
        {
            storage.push(0);
            i = i + 1;
        }
        Lru { storage, ways: associativity, cnt: 1 }
    }

    /// Whether another use can be stamped.
    pub fn has_room(&self) -> (ok: bool)
        ensures
            ok == (self@.cnt < usize::MAX),
    {
        self.cnt < usize::MAX
    }

    /// Whether two more uses can be stamped.
    pub fn spare(&self) -> (ok: bool)
        ensures
            ok == (self@.cnt + 1 < usize::MAX),
    {
        self.cnt < usize::MAX - 1
    }

    /// Number of slots in a set.
    pub fn ways(&self) -> (ways: usize)
        ensures
            ways == self@.ways,
    {
        self.ways
    }

    /// Stamps the slot as the one used last. Where every stamp lay below the next
    /// stamp, it does so afterwards and the slot has the highest stamp of all, so that
    /// in a set of two ways or more it is not the one to evict.
    pub fn update(&mut self, set_idx: usize, block_idx: usize)
        requires
            old(self)@.has(set_idx as int, block_idx as int),
            old(self)@.cnt < usize::MAX,
        ensures
            final(self)@ == old(self)@.touched(set_idx as int, block_idx as int),
            old(self)@.wf() ==> final(self)@.wf(),
            old(self)@.wf() ==> forall|i: int|
                0 <= i < final(self)@.storage.len() && i != final(self)@.slot(
                    set_idx as int,
                    block_idx as int,
                ) ==> #[trigger] final(self)@.storage[i] < final(self)@.storage[final(self)@.slot(
                    set_idx as int,
                    block_idx as int,
                )],
            old(self)@.wf() && old(self)@.ways >= 2 && old(self)@.has(
                set_idx as int,
                old(self)@.ways - 1,
            ) ==> final(self)@.victim(set_idx as int) != block_idx,
    {
        proof {
            if self@.wf() {
                self@.lemma_touched(set_idx as int, block_idx as int);
            }
        }
        assert(0 <= set_idx * self.ways) by (nonlinear_arith);
        assert(self@.slot(set_idx as int, block_idx as int) < self.storage.len());
        let slot: usize = set_idx * self.ways + block_idx;
        self.storage[slot] = self.cnt;
        self.cnt += 1;
    }

    /// Gives the slot the lowest stamp there is, which keeps every stamp below the next
    /// stamp where it lay there.
    pub fn eliminate(&mut self, set_idx: usize, block_idx: usize)
        requires
            old(self)@.has(set_idx as int, block_idx as int),
        ensures
            final(self)@ == old(self)@.eliminated(set_idx as int, block_idx as int),
            old(self)@.wf() ==> final(self)@.wf(),
    {
        proof {
            if self@.wf() {
                self@.lemma_eliminated(set_idx as int, block_idx as int);
            }
        }
        assert(0 <= set_idx * self.ways) by (nonlinear_arith);
        assert(self@.slot(set_idx as int, block_idx as int) < self.storage.len());
        let slot: usize = set_idx * self.ways + block_idx;
        self.storage[slot] = 0;
    }

    pub fn get_lru_idx(&self, set_idx: usize) -> (evict: (usize, usize))
        requires
            self@.has(set_idx as int, self@.ways - 1),
        ensures
            evict == (set_idx, self@.victim(set_idx as int) as usize),
            self@.has(set_idx as int, evict.1 as int),
    {
        assert(0 <= set_idx * self.ways) by (nonlinear_arith);
        assert(self@.slot(set_idx as int, self.ways - 1) < self.storage.len());
        let start: usize = set_idx * self.ways;
        let end: usize = start + self.ways;
        let mut best: usize = start;
        let mut i: usize = start + 1;
        while i < end
            invariant
                start < i <= end <= self.storage@.len(),
                start <= best < i,
                best == least_recent(self.storage@, start as int, i as int),
            decreases end - i,
        {
            if self.storage[i] < self.storage[best] {
                best = i;
            }
            i = i + 1;
        }
        (set_idx, best - start)
    }
}

} // verus!
