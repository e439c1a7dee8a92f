use crate::bus::{Bus, BusAction, BusView, Task};
use crate::geometry::{
    floor_log2, index_bits, lemma_geometry, num_sets, offset_bits, valid_geometry, ADDR_LEN,
    WORD_SIZE,
};
use crate::lru::{Lru, LruView};
use crate::protocol::{
    first_match, lemma_first_match, lemma_first_match_is, lemma_first_match_none, CacheProtocol,
    LineState, ProcessorAction, Protocol, ProtocolBuilder, ProtocolKind, ProtocolView,
    PLACEHOLDER_TAG,
};
use crate::utils::AddressLayout;
use std::collections::VecDeque;
use vstd::prelude::*;

verus! {

/// What a cache counts.
#[derive(Default, Clone, Copy, Debug, PartialEq, Eq, Structural)]
pub struct CacheStats {
    pub num_data_cache_misses: usize,
    pub num_data_cache_hits: usize,
    pub num_private_data_access: usize,
    pub num_shared_data_access: usize,
}

impl CacheStats {
    /// The counts after one more access to a block that other caches hold too, or to one
    /// that they do not.
    pub open spec fn accessed(self, shared: bool) -> CacheStats {
        if shared {
            CacheStats {
                num_shared_data_access: (self.num_shared_data_access + 1) as usize,
                ..self
            }
        } else {
            CacheStats {
                num_private_data_access: (self.num_private_data_access + 1) as usize,
                ..self
            }
        }
    }

    /// The counts after one more hit.
    pub open spec fn hit(self) -> CacheStats {
        CacheStats { num_data_cache_hits: (self.num_data_cache_hits + 1) as usize, ..self }
    }

    /// The counts after one more miss.
    pub open spec fn missed(self) -> CacheStats {
        CacheStats { num_data_cache_misses: (self.num_data_cache_misses + 1) as usize, ..self }
    }

    /// Whether every count can grow by `n` more.
    pub open spec fn has_room(self, n: int) -> bool {
        &&& self.num_data_cache_misses + n <= usize::MAX
        &&& self.num_data_cache_hits + n <= usize::MAX
        &&& self.num_private_data_access + n <= usize::MAX
        &&& self.num_shared_data_access + n <= usize::MAX
    }

    /// Whether no count of `self` is more than `n` above that of `earlier`.
    pub open spec fn within(self, earlier: CacheStats, n: int) -> bool {
        &&& self.num_data_cache_misses <= earlier.num_data_cache_misses + n
        &&& self.num_data_cache_hits <= earlier.num_data_cache_hits + n
        &&& self.num_private_data_access <= earlier.num_private_data_access + n
        &&& self.num_shared_data_access <= earlier.num_shared_data_access + n
    }

    /// Whether no count of `self` is below that of `earlier`.
    pub open spec fn no_less_than(self, earlier: CacheStats) -> bool {
        &&& self.num_data_cache_misses >= earlier.num_data_cache_misses
        &&& self.num_data_cache_hits >= earlier.num_data_cache_hits
        &&& self.num_private_data_access >= earlier.num_private_data_access
        &&& self.num_shared_data_access >= earlier.num_shared_data_access
    }
}

/// A cache as a value.
#[verifier::ext_equal]
pub struct CacheView {
    pub core_id: usize,
    /// The tag stored in every slot, set by set; the placeholder in an empty slot.
    pub tags: Seq<u32>,
    pub lru: LruView,
    pub protocol: ProtocolView,
    pub layout: AddressLayout,
    /// Size of a block in bytes.
    pub block_size: usize,
    /// The accesses that wait, the next one first.
    pub pending: Seq<(u32, ProcessorAction)>,
    /// Whether the store that waits has missed and had its block fetched.
    pub write_missed: bool,
    pub stats: CacheStats,
}

impl CacheView {
    /// Number of slots in a set.
    pub open spec fn ways(self) -> int {
        self.lru.ways as int
    }

    /// The first slot of the set of `addr`.
    pub open spec fn set_start(self, addr: u32) -> int {
        self.layout.index_of(addr) * self.ways()
    }

    /// Whether slot `i` is empty: it stores the placeholder, and its line is invalid.
    pub open spec fn vacant(self, i: int) -> bool {
        self.tags[i] == PLACEHOLDER_TAG && self.protocol.state(i) is Invalid
    }

    /// The tag that a lookup sees in each slot: the tag stored there, but nothing in an
    /// empty slot.
    pub open spec fn keys(self) -> Seq<Option<u32>> {
        Seq::new(
            self.tags.len(),
            |i: int|
                if self.vacant(i) {
                    None
                } else {
                    Some(self.tags[i])
                },
        )
    }

    /// The slot in which the tag of `addr` is stored: the first one of its set that is
    /// not empty and stores that tag.
    pub open spec fn search(self, addr: u32) -> Option<usize> {
        match first_match(
            self.keys(),
            self.layout.tag_of(addr),
            self.set_start(addr),
            self.set_start(addr) + self.ways(),
        ) {
            Some(i) => Some(i as usize),
            None => None,
        }
    }

    /// The slot that a block for `addr` would take: the least recently used of its set.
    pub open spec fn evict_slot(self, addr: u32) -> int {
        self.set_start(addr) + self.lru.victim(self.layout.index_of(addr) as int)
    }

    /// The parts of the cache fit together: the tag array, the stamps and the table of
    /// the protocol have one entry for every slot; the table carries in every slot the
    /// tag that the tag array stores there; no set holds a block twice; and no more than
    /// two accesses wait.
    pub open spec fn wf(self) -> bool {
        &&& self.layout.wf()
        &&& self.protocol.wf()
        &&& self.protocol.layout() == self.layout
        &&& self.protocol.associativity() == self.lru.ways
        &&& self.protocol.block_size() == self.block_size
        &&& self.protocol.core_id() == self.core_id
        &&& self.lru.ways >= 1
        &&& self.layout.ways() == self.ways()
        &&& self.tags.len() == self.layout.sets() * self.ways()
        &&& self.tags.len() <= usize::MAX
        &&& self.protocol.slots() == self.tags.len()
        &&& self.lru.storage.len() == self.tags.len()
        &&& self.tags_agree()
        &&& self.tags_unique()
        &&& self.pending.len() <= 2
    }

    /// The table of the protocol carries in every slot the tag that the tag array stores
    /// there.
    pub open spec fn tags_agree(self) -> bool {
        forall|i: int| 0 <= i < self.tags.len() ==> #[trigger] self.protocol.tag(i) == self.tags[i]
    }

    /// Every slot of the set of an address in which a lookup sees the tag of that
    /// address is the slot that the lookup finds: no set holds a block twice.
    pub open spec fn tags_unique(self) -> bool {
        forall|addr: u32, i: int|
            #![trigger self.set_start(addr), self.keys()[i]]
            self.set_start(addr) <= i < self.set_start(addr) + self.ways() && self.keys()[i]
                == Some(self.layout.tag_of(addr)) ==> self.search(addr) == Some(i as usize)
    }

    /// Whether one more access can be handed in: fewer than two wait.
    pub open spec fn can_accept(self) -> bool {
        self.pending.len() < 2
    }

    /// Whether a store waits only as the last access.
    pub open spec fn in_order(self) -> bool {
        self.pending.len() == 2 ==> self.pending[0].1 is Read
    }

    /// Whether a cycle would leave three accesses waiting: two wait, the first is a
    /// store to a block that is not cached, and the cache is not kept waiting by a
    /// transaction of its own.
    pub open spec fn overflows(self, bus: BusView) -> bool {
        &&& !self.waits_for(bus)
        &&& self.pending.len() == 2
        &&& self.pending[0].1 is Write
        &&& (CacheView { pending: self.pending.skip(1), ..self }).search(self.pending[0].0) is None
    }

    /// The cache with one more access waiting.
    pub open spec fn scheduled(self, addr: u32, action: ProcessorAction) -> CacheView {
        CacheView { pending: self.pending.push((addr, action)), ..self }
    }

    /// Whether the counts and stamps can grow by what one access may add.
    pub open spec fn has_room(self) -> bool {
        self.stats.has_room(1) && self.lru.cnt < usize::MAX
    }

    /// Whether a free bus has room in its totals for a transaction of this cache.
    pub open spec fn bus_has_room(self, bus: BusView) -> bool {
        bus.task is None ==> bus.has_room(self.block_size) && bus.has_room(WORD_SIZE)
    }

    /// Whether two caches differ in nothing but the states that their protocol tables
    /// hold in slots that are not empty.
    pub open spec fn same_but_states(self, other: CacheView) -> bool {
        &&& other == CacheView { protocol: other.protocol, ..self }
        &&& other.protocol.same_shape(self.protocol)
        &&& forall|i: int|
            0 <= i < self.tags.len() ==> #[trigger] other.protocol.tag(i) == self.protocol.tag(i)
        &&& forall|i: int|
            0 <= i < self.tags.len() && self.vacant(i) ==> #[trigger] other.protocol.state(i)
                is Invalid
    }

    /// What an attempt to load `addr` does to the cache and the bus, and whether the load
    /// is done. A miss on a set whose least recently used slot holds a block that this
    /// cache owns first writes that block back, when the bus is free, and is tried
    /// again. Otherwise the protocol is asked; where it needs the bus and the bus is
    /// occupied, the load is tried again. A hit refreshes the stamp of its slot and is
    /// counted, and where it needed no transaction also counts as an access to shared or
    /// to private data. A miss stores the tag in the least recently used slot and is
    /// counted.
    pub open spec fn loaded(self, addr: u32, bus: BusView) -> (CacheView, BusView, bool) {
        let hit = self.search(addr);
        let set = self.layout.index_of(addr) as int;
        let way = self.lru.victim(set);
        let evict = self.evict_slot(addr);
        let evict_tag = self.tags[evict];
        if hit is None && self.protocol.state(evict).is_owner() {
            if bus.task is Some {
                (self, bus, false)
            } else {
                (
                    CacheView {
                        protocol: self.protocol.invalidated(evict),
                        tags: self.tags.update(evict, PLACEHOLDER_TAG),
                        lru: self.lru.eliminated(set, way),
                        ..self
                    },
                    bus.put_on(self.core_id, BusAction::Flush(evict_tag, self.block_size)),
                    false,
                )
            }
        } else {
            let (protocol, action) = self.protocol.processed(
                addr,
                hit,
                evict as usize,
                hit is Some,
                ProcessorAction::Read,
                bus.task is Some,
            );
            if action is Some && bus.task is Some {
                (self, bus, false)
            } else {
                let after = match action {
                    Some(a) => bus.put_on(self.core_id, a),
                    None => bus,
                };
                match hit {
                    Some(idx) => (
                        CacheView {
                            protocol,
                            lru: self.lru.touched(set, idx - self.set_start(addr)),
                            stats: if action is None {
                                self.stats.hit().accessed(protocol.state(idx as int).is_shared())
                            } else {
                                self.stats.hit()
                            },
                            ..self
                        },
                        after,
                        true,
                    ),
                    None => (
                        CacheView {
                            protocol,
                            tags: self.tags.update(evict, self.layout.tag_of(addr)),
                            lru: self.lru.touched(set, way),
                            stats: self.stats.missed(),
                            ..self
                        },
                        after,
                        true,
                    ),
                }
            }
        }
    }

    /// What an attempt to store to `addr` does to the cache and the bus, and whether the
    /// store is done. Where the block is not cached, a load of it is scheduled ahead of
    /// everything else, and the store is tried again. Otherwise the protocol is asked;
    /// where it needs the bus and the bus is occupied, the store is tried again. A store
    /// that is done counts as a hit, unless its block had to be fetched for it.
    pub open spec fn stored(self, addr: u32, bus: BusView) -> (CacheView, BusView, bool) {
        match self.search(addr) {
            None => (
                CacheView {
                    pending: seq![(addr, ProcessorAction::Read)] + self.pending,
                    write_missed: true,
                    ..self
                },
                bus,
                false,
            ),
            Some(idx) => {
                let (protocol, action) = self.protocol.processed(
                    addr,
                    Some(idx),
                    idx,
                    true,
                    ProcessorAction::Write,
                    bus.task is Some,
                );
                if action is Some && bus.task is Some {
                    (self, bus, false)
                } else {
                    (
                        CacheView {
                            protocol,
                            write_missed: false,
                            stats: if self.write_missed {
                                self.stats
                            } else {
                                self.stats.hit()
                            },
                            ..self
                        },
                        match action {
                            Some(a) => bus.put_on(self.core_id, a),
                            None => bus,
                        },
                        true,
                    )
                }
            },
        }
    }

    /// Whether the transaction on the bus is this cache's own.
    pub open spec fn waits_for(self, bus: BusView) -> bool {
        bus.task is Some && bus.task.unwrap().issuer_id == self.core_id
    }

    /// What one cycle does to the cache and the bus, and whether the cache stalls. With
    /// its own transaction on the bus the cache waits. Otherwise it tries the access
    /// that waits first; one that is not done waits on, a load as the first, a store as
    /// the last. The cache stalls unless nothing waited.
    pub open spec fn updated(self, bus: BusView) -> (CacheView, BusView, bool) {
        if self.waits_for(bus) {
            (self, bus, true)
        } else if self.pending.len() == 0 {
            (self, bus, false)
        } else {
            let (addr, action) = self.pending[0];
            let rest = CacheView { pending: self.pending.skip(1), ..self };
            match action {
                ProcessorAction::Read => {
                    let (cache, after, done) = rest.loaded(addr, bus);
                    if done {
                        (cache, after, true)
                    } else {
                        (
                            CacheView {
                                pending: seq![(addr, ProcessorAction::Read)] + cache.pending,
                                ..cache
                            },
                            after,
                            true,
                        )
                    }
                },
                ProcessorAction::Write => {
                    let (cache, after, done) = rest.stored(addr, bus);
                    if done {
                        (cache, after, true)
                    } else {
                        (
                            CacheView {
                                pending: cache.pending.push((addr, ProcessorAction::Write)),
                                ..cache
                            },
                            after,
                            true,
                        )
                    }
                },
            }
        }
    }

    /// What snooping does to the cache and the bus: what it does to the table of the
    /// protocol, and the transaction as rewritten.
    pub open spec fn snooped(self, bus: BusView) -> (CacheView, BusView) {
        let (protocol, rewritten) = self.protocol.snooped(bus.task);
        (
            CacheView { protocol, ..self },
            if rewritten is Some {
                bus.with_task(rewritten)
            } else {
                bus
            },
        )
    }

    /// What read broadcast does to the cache and the bus.
    pub open spec fn snarfed(self, bus: BusView) -> (CacheView, BusView) {
        let (protocol, task) = self.protocol.snarfed(bus.task);
        (CacheView { protocol, ..self }, bus.with_task(task))
    }

    /// Whether the transaction on the bus, once the protocol has settled it, is this
    /// cache's own, has no time left and is no write-back: the access that it served is
    /// then complete.
    pub open spec fn completes(self, bus: BusView) -> bool {
        let task = self.protocol.settled(bus.task).1;
        &&& task is Some
        &&& task.unwrap().issuer_id == self.core_id
        &&& task.unwrap().remaining_cycles == 0
        &&& !(task.unwrap().action is Flush)
    }

    /// Whether the cache holds, in a valid state, the block that its own transaction on
    /// the bus is about. A write-back is about no block that the cache still holds.
    pub open spec fn holds_own(self, bus: BusView) -> bool {
        match bus.task {
            Some(t) => t.issuer_id == self.core_id && !(t.action is Flush) ==> {
                &&& self.protocol.find(t.action.addr()) is Some
                &&& !(self.protocol.state(
                    self.protocol.find(t.action.addr()).unwrap() as int,
                ) is Invalid)
            },
            None => true,
        }
    }

    /// What the end of a cycle does to the cache and the bus: the protocol settles the
    /// transaction, and where that completes an access of this cache, the access counts
    /// as one to shared or to private data, by the state of its block.
    pub open spec fn settled(self, bus: BusView) -> (CacheView, BusView) {
        let (protocol, task) = self.protocol.settled(bus.task);
        let after = bus.with_task(task);
        if self.completes(bus) {
            let idx = protocol.find(task.unwrap().action.addr()).unwrap();
            (
                CacheView {
                    protocol,
                    stats: self.stats.accessed(protocol.state(idx as int).is_shared()),
                    ..self
                },
                after,
            )
        } else {
            (CacheView { protocol, ..self }, after)
        }
    }
}

impl CacheView {
    /// The set of an address lies inside the tag array; the slot to evict lies in the
    /// set; what a lookup finds lies in the set, is not empty and stores the tag of the
    /// address; and the table of the protocol finds what the cache finds.
    pub proof fn lemma_set(self, addr: u32)
        requires
            self.wf(),
        ensures
            0 <= self.set_start(addr),
            self.set_start(addr) + self.ways() <= self.tags.len(),
            self.set_start(addr) <= self.evict_slot(addr) < self.set_start(addr) + self.ways(),
            0 <= self.lru.victim(self.layout.index_of(addr) as int) < self.ways(),
            match self.search(addr) {
                Some(idx) => {
                    &&& self.set_start(addr) <= idx < self.set_start(addr) + self.ways()
                    &&& self.tags[idx as int] == self.layout.tag_of(addr)
                    &&& !self.vacant(idx as int)
                    &&& self.keys()[idx as int] == Some(self.layout.tag_of(addr))
                },
                None => forall|i: int|
                    self.set_start(addr) <= i < self.set_start(addr) + self.ways()
                        ==> #[trigger] self.keys()[i] != Some(self.layout.tag_of(addr)),
            },
            self.protocol.find(addr) == self.search(addr),
    {
        self.layout.lemma_fields_bounded(addr);
        let set = self.layout.index_of(addr) as int;
        let ways = self.ways();
        let sets = self.layout.sets() as int;
        assert(0 <= set * ways && set * ways + ways <= sets * ways) by (nonlinear_arith)
            requires
                0 <= set < sets,
                0 <= ways,
        ;
        self.lru.lemma_victim(set);
        let tag = self.layout.tag_of(addr);
        let lo = self.set_start(addr);
        lemma_first_match(self.keys(), tag, lo, lo + ways);
        assert forall|j: int| lo <= j < lo + ways implies (self.protocol.keys()[j] == Some(tag)) == (
        self.keys()[j] == Some(tag)) by {
            assert(self.protocol.tag(j) == self.tags[j]);
            self.protocol.lemma_keys(j);
        }
        lemma_first_match_same(self.protocol.keys(), self.keys(), tag, lo, lo + ways);
    }

    /// A cache whose slots store what those of a well-formed cache store, in which no
    /// slot sees a tag that it did not see in the other, and a lookup finds in it
    /// what it sees in a slot that saw another tag or none before, holds no block twice.
    pub proof fn lemma_unique(self, earlier: CacheView, changed: int)
        requires
            earlier.wf(),
            self.layout == earlier.layout,
            self.lru.ways == earlier.lru.ways,
            self.tags.len() == earlier.tags.len(),
            forall|i: int|
                0 <= i < self.tags.len() && i != changed ==> #[trigger] self.keys()[i]
                    == earlier.keys()[i] || self.keys()[i] is None,
            0 <= changed < self.tags.len() ==> self.keys()[changed] == earlier.keys()[changed]
                || self.keys()[changed] is None || forall|addr: u32|
                #![trigger self.set_start(addr)]
                self.set_start(addr) <= changed < self.set_start(addr) + self.ways()
                    && self.keys()[changed] == Some(self.layout.tag_of(addr)) ==> earlier.search(
                    addr,
                ) is None,
        ensures
            self.tags_unique(),
    {
        assert forall|addr: u32, i: int|
            #![trigger self.set_start(addr), self.keys()[i]]
            self.set_start(addr) <= i < self.set_start(addr) + self.ways() && self.keys()[i]
                == Some(self.layout.tag_of(addr)) implies self.search(addr) == Some(i as usize) by {
            earlier.lemma_set(addr);
            let lo = self.set_start(addr);
            let t = self.layout.tag_of(addr);
            lemma_first_match(earlier.keys(), t, lo, lo + self.ways());
            if self.keys()[i] == earlier.keys()[i] {
                assert(earlier.set_start(addr) <= i && earlier.keys()[i] == Some(t));
                assert(earlier.search(addr) == Some(i as usize));
                assert forall|j: int| lo <= j < i implies self.keys()[j] != Some(t) by {
                    assert(earlier.keys()[j] != Some(t));
                    if j == changed && self.keys()[j] == Some(t) {
                        assert(self.set_start(addr) <= changed);
                    }
                }
            } else {
                assert(i == changed);
                assert(self.set_start(addr) <= changed);
                assert(earlier.search(addr) is None);
                assert forall|j: int| lo <= j < i implies self.keys()[j] != Some(t) by {
                    assert(earlier.keys()[j] != Some(t));
                }
            }
            lemma_first_match_is(self.keys(), t, lo, lo + self.ways(), i);
        }
    }

    /// Two addresses whose sets share a slot have the same set.
    pub proof fn lemma_same_set(self, a: u32, b: u32, i: int)
        requires
            self.wf(),
            self.set_start(a) <= i < self.set_start(a) + self.ways(),
            self.set_start(b) <= i < self.set_start(b) + self.ways(),
        ensures
            self.layout.index_of(a) == self.layout.index_of(b),
            self.set_start(a) == self.set_start(b),
    {
        let sa = self.layout.index_of(a) as int;
        let sb = self.layout.index_of(b) as int;
        let ways = self.ways();
        assert(sa == sb) by (nonlinear_arith)
            requires
                sa * ways <= i < sa * ways + ways,
                sb * ways <= i < sb * ways + ways,
                ways >= 1,
        ;
    }

    /// Changing states in slots that are not empty keeps a cache well formed.
    pub proof fn lemma_states_keep_wf(self, other: CacheView)
        requires
            self.wf(),
            self.same_but_states(other),
            other.protocol.wf(),
        ensures
            other.wf(),
    {
        assert forall|i: int| 0 <= i < other.tags.len() implies #[trigger] other.keys()[i]
            == self.keys()[i] || other.keys()[i] is None by {
            assert(other.protocol.tag(i) == self.protocol.tag(i));
        }
        assert forall|i: int| 0 <= i < other.tags.len() implies #[trigger] other.protocol.tag(i)
            == other.tags[i] by {
            assert(self.protocol.tag(i) == self.tags[i]);
        }
        other.lemma_unique(self, -1);
    }
}

impl CacheView {
    /// The protocol accepts the accesses that the cache presents: a load, as a hit where
    /// a lookup finds its tag and as a miss for the slot to evict where it does not; and
    /// a store where a lookup finds the tag.
    pub proof fn lemma_accepts(self, addr: u32, action: ProcessorAction, busy: bool)
        requires
            self.wf(),
            action is Write ==> self.search(addr) is Some,
        ensures
            self.protocol.accepts(
                addr,
                self.search(addr),
                if action is Write {
                    self.search(addr).unwrap()
                } else {
                    self.evict_slot(addr) as usize
                },
                self.search(addr) is Some,
                action,
                busy,
            ),
            self.search(addr) is Some ==> self.protocol.classifiable(
                self.search(addr).unwrap(),
                addr,
            ) || self.protocol.state(self.search(addr).unwrap() as int) is Invalid,
            !self.vacant(self.evict_slot(addr)) ==> self.protocol.holds_line(
                self.evict_slot(addr) as usize,
                self.tags[self.evict_slot(addr)],
            ),
    {
        self.lemma_set(addr);
        self.layout.lemma_fields_bounded(addr);
        let evict = self.evict_slot(addr);
        assert(self.protocol.tag(evict) == self.tags[evict]);
        assert(self.protocol.tag(0) == self.tags[0]);
        if self.search(addr) is Some {
            let idx = self.search(addr).unwrap() as int;
            assert(self.protocol.tag(idx) == self.tags[idx]);
        }
    }

    /// A load keeps the cache well formed, leaves what waits alone, lowers no count that
    /// has room to grow, and puts nothing on the bus but a write-back or a transaction for the address loaded,
    /// and that only on a free bus.
    pub proof fn lemma_loaded(self, addr: u32, bus: BusView)
        requires
            self.wf(),
        ensures
            ({
                let r = self.loaded(addr, bus);
                &&& r.0.wf()
                &&& r.0.pending == self.pending
                &&& r.0.write_missed == self.write_missed
                &&& self.has_room() ==> r.0.stats.no_less_than(self.stats)
                &&& r.0.core_id == self.core_id
                &&& r.0.layout == self.layout
                &&& r.0.block_size == self.block_size
                &&& r.0.protocol.same_shape(self.protocol)
                &&& r.1 == bus || (bus.task is None && r.1.task is Some && r.1.task.unwrap().issuer_id
                    == self.core_id && (r.1.task.unwrap().action is Flush
                    || r.1.task.unwrap().action.addr() == addr))
            }),
    {
        self.lemma_set(addr);
        self.lemma_accepts(addr, ProcessorAction::Read, bus.task is Some);
        let hit = self.search(addr);
        let evict = self.evict_slot(addr);
        let tag = self.layout.tag_of(addr);
        let r = self.loaded(addr, bus);
        let c = r.0;
        if hit is None && self.protocol.state(evict).is_owner() {
            if bus.task is None {
                self.protocol.lemma_invalidated(evict);
                assert forall|i: int| 0 <= i < c.tags.len() implies #[trigger] c.protocol.tag(i)
                    == c.tags[i] by {
                    assert(self.protocol.tag(i) == self.tags[i]);
                }
                assert forall|i: int| 0 <= i < c.tags.len() implies #[trigger] c.keys()[i]
                    == self.keys()[i] || c.keys()[i] is None by {
                    assert(self.protocol.tag(i) == self.tags[i]);
                }
                c.lemma_unique(self, -1);
            }
        } else {
            self.protocol.lemma_processed(
                addr,
                hit,
                evict as usize,
                hit is Some,
                ProcessorAction::Read,
                bus.task is Some,
            );
            let (protocol, action) = self.protocol.processed(
                addr,
                hit,
                evict as usize,
                hit is Some,
                ProcessorAction::Read,
                bus.task is Some,
            );
            if !(action is Some && bus.task is Some) {
                let target = if hit is Some {
                    hit.unwrap() as int
                } else {
                    evict
                };
                assert(c.protocol == protocol);
                assert(c.tags =~= self.tags.update(target, tag));
                assert forall|i: int| 0 <= i < c.tags.len() implies #[trigger] c.protocol.tag(i)
                    == c.tags[i] by {
                    assert(self.protocol.tag(i) == self.tags[i]);
                    if i != target {
                        assert(protocol.tag(i) == self.protocol.tag(i));
                    } else {
                        assert(protocol.tag(i) == tag);
                    }
                }
                assert forall|i: int| 0 <= i < c.tags.len() && i != target implies #[trigger] c.keys()[i]
                    == self.keys()[i] || c.keys()[i] is None by {
                    assert(protocol.tag(i) == self.protocol.tag(i));
                    assert(protocol.state(i) == self.protocol.state(i));
                }
                assert(c.keys()[target] == Some(tag));
                if hit is Some {
                    assert(self.keys()[target] == Some(tag));
                } else {
                    assert forall|a: u32|
                        #![trigger c.set_start(a)]
                        c.set_start(a) <= target < c.set_start(a) + c.ways() && c.keys()[target]
                            == Some(c.layout.tag_of(a)) implies self.search(a) is None by {
                        self.lemma_same_set(a, addr, evict);
                    }
                }
                c.lemma_unique(self, target);
            }
        }
        assert(c.tags_agree());
        assert(c.tags_unique());
        assert(c.wf());
    }

    /// A store behind which at most one access waits, and none where its block is not
    /// cached, keeps the cache well formed once the store itself waits again or is done,
    /// lowers no count that has room to grow, and puts nothing on the bus but a transaction for the address
    /// stored to, and that only on a free bus.
    pub proof fn lemma_stored(self, addr: u32, bus: BusView)
        requires
            self.wf(),
            self.pending.len() <= 1,
            self.search(addr) is None ==> self.pending.len() == 0,
        ensures
            ({
                let r = self.stored(addr, bus);
                &&& r.2 ==> r.0.wf()
                &&& !r.2 ==> (CacheView {
                    pending: r.0.pending.push((addr, ProcessorAction::Write)),
                    ..r.0
                }).wf()
                &&& self.has_room() ==> r.0.stats.no_less_than(self.stats)
                &&& r.0.core_id == self.core_id
                &&& r.0.layout == self.layout
                &&& r.0.block_size == self.block_size
                &&& r.0.tags == self.tags
                &&& r.0.lru == self.lru
                &&& r.0.protocol.same_shape(self.protocol)
                &&& r.1 == bus || (bus.task is None && r.1.task is Some && r.1.task.unwrap().issuer_id
                    == self.core_id && r.1.task.unwrap().action.addr() == addr)
            }),
    {
        self.lemma_set(addr);
        let r = self.stored(addr, bus);
        let c = if r.2 {
            r.0
        } else {
            CacheView { pending: r.0.pending.push((addr, ProcessorAction::Write)), ..r.0 }
        };
        match self.search(addr) {
            None => {
                c.lemma_rescheduled(self);
            },
            Some(idx) => {
                self.lemma_accepts(addr, ProcessorAction::Write, bus.task is Some);
                self.protocol.lemma_processed(
                    addr,
                    Some(idx),
                    idx,
                    true,
                    ProcessorAction::Write,
                    bus.task is Some,
                );
                assert forall|i: int| 0 <= i < c.tags.len() implies #[trigger] c.protocol.tag(i)
                    == c.tags[i] by {
                    assert(self.protocol.tag(i) == self.tags[i]);
                }
                assert forall|i: int| 0 <= i < c.tags.len() implies #[trigger] c.keys()[i]
                    == self.keys()[i] by {
                    assert(self.protocol.tag(i) == self.tags[i]);
                }
                c.lemma_unique(self, -1);
            },
        }
    }

    /// A cycle that leaves no more than two accesses waiting keeps the cache well
    /// formed, lowers no count that has room to grow, puts nothing on the bus but a transaction of this cache,
    /// and that only on a free bus, and lets a store wait only as the last access where
    /// it did so before.
    pub proof fn lemma_updated(self, bus: BusView)
        requires
            self.wf(),
            !self.overflows(bus),
        ensures
            ({
                let r = self.updated(bus);
                &&& r.0.wf()
                &&& self.has_room() ==> r.0.stats.no_less_than(self.stats)
                &&& r.0.core_id == self.core_id
                &&& r.0.layout == self.layout
                &&& r.0.block_size == self.block_size
                &&& r.0.protocol.same_shape(self.protocol)
                &&& r.0.pending.len() < 3
                &&& self.in_order() ==> r.0.in_order()
                &&& r.1 == bus || (bus.task is None && r.1.task is Some && r.1.task.unwrap().issuer_id
                    == self.core_id)
            }),
    {
        let r = self.updated(bus);
        if !self.waits_for(bus) && self.pending.len() > 0 {
            let (addr, action) = self.pending[0];
            let rest = CacheView { pending: self.pending.skip(1), ..self };
            rest.lemma_rescheduled(self);
            assert(rest.wf());
            assert(rest.has_room() == self.has_room());
            match action {
                ProcessorAction::Read => {
                    rest.lemma_loaded(addr, bus);
                    let (cache, after, done) = rest.loaded(addr, bus);
                    assert(cache.wf());
                    if !done {
                        let c = CacheView {
                            pending: seq![(addr, ProcessorAction::Read)] + cache.pending,
                            ..cache
                        };
                        assert(c.pending =~= self.pending);
                        c.lemma_rescheduled(cache);
                        assert(r.0 == c);
                    } else {
                        assert(r.0 == cache);
                    }
                    assert(r.1 == after);
                    assert(r.0.wf());
                    assert(r.0.stats == cache.stats);
                    assert(r.0.protocol == cache.protocol);
                },
                ProcessorAction::Write => {
                    rest.lemma_stored(addr, bus);
                    let (cache, after, done) = rest.stored(addr, bus);
                    if !done {
                        let c = CacheView {
                            pending: cache.pending.push((addr, ProcessorAction::Write)),
                            ..cache
                        };
                        assert(r.0 == c);
                    } else {
                        assert(r.0 == cache);
                    }
                    assert(r.1 == after);
                    assert(r.0.wf());
                    assert(r.0.stats == cache.stats);
                    assert(r.0.protocol == cache.protocol);
                },
            }
        } else {
            assert(r.0 == self && r.1 == bus);
        }
    }

    /// Snooping, read broadcast and settling keep the cache well formed, and change
    /// nothing in it but states in slots that are not empty and, in settling, a count.
    pub proof fn lemma_bus_steps(self, bus: BusView)
        requires
            self.wf(),
        ensures
            self.snooped(bus).0.wf(),
            self.snarfed(bus).0.wf(),
            self.settled(bus).0.wf(),
            self.same_but_states(CacheView { protocol: self.snooped(bus).0.protocol, ..self }),
            self.same_but_states(CacheView { protocol: self.snarfed(bus).0.protocol, ..self }),
            self.same_but_states(CacheView { protocol: self.settled(bus).0.protocol, ..self }),
    {
        self.protocol.lemma_bus_steps(bus.task);
        let a = CacheView { protocol: self.snooped(bus).0.protocol, ..self };
        let b = CacheView { protocol: self.snarfed(bus).0.protocol, ..self };
        let c = CacheView { protocol: self.settled(bus).0.protocol, ..self };
        assert forall|i: int| 0 <= i < self.tags.len() && self.vacant(i) implies {
            &&& a.protocol.state(i) is Invalid
            &&& b.protocol.state(i) is Invalid
            &&& c.protocol.state(i) is Invalid
        } by {
            assert(self.protocol.tag(i) == self.tags[i]);
            assert(self.protocol.vacant(i));
        }
        self.lemma_states_keep_wf(a);
        self.lemma_states_keep_wf(b);
        self.lemma_states_keep_wf(c);
        let d = self.settled(bus).0;
        assert(d.keys() =~= c.keys());
        assert forall|i: int| 0 <= i < d.tags.len() implies #[trigger] d.protocol.tag(i)
            == d.tags[i] by {
            assert(c.protocol.tag(i) == c.tags[i]);
        }
        d.lemma_unique(c, -1);
    }
}

/// Where two key sequences hold the tag at the same positions of a range, a lookup of
/// the tag finds the same position in both.
pub proof fn lemma_first_match_same(
    keys: Seq<Option<u32>>,
    other: Seq<Option<u32>>,
    tag: u32,
    lo: int,
    hi: int,
)
    requires
        forall|j: int| lo <= j < hi ==> (#[trigger] keys[j] == Some(tag)) == (other[j] == Some(tag)),
    ensures
        first_match(keys, tag, lo, hi) == first_match(other, tag, lo, hi),
    decreases hi - lo,
{
    if lo < hi {
        lemma_first_match_same(keys, other, tag, lo + 1, hi);
    }
}

/// One cache of the system: the tags that it stores, their recency, the table of its
/// coherence protocol, the accesses that wait, and its counts.
pub struct Cache {
    core_id: usize,
    cache: Vec<u32>,
    lru: Lru,
    protocol: CacheProtocol,
    addr_layout: AddressLayout,
    // size of a block in bytes
    block_size: usize,
    // Queue of waiting instructions (address, action)
    scheduled_instructions: VecDeque<(u32, ProcessorAction)>,
    write_missed: bool,
    stats: CacheStats,
}

impl View for Cache {
    type V = CacheView;

    closed spec fn view(&self) -> CacheView {
        CacheView {
            core_id: self.core_id,
            tags: self.cache@,
            lru: self.lru@,
            protocol: self.protocol@,
            layout: self.addr_layout,
            block_size: self.block_size,
            pending: self.scheduled_instructions@,
            write_missed: self.write_missed,
            stats: self.stats,
        }
    }
}

impl CacheView {
    /// The layout of addresses for a cache of the given shape.
    pub open spec fn layout_for(
        cache_size: usize,
        associativity: usize,
        block_size: usize,
    ) -> AddressLayout {
        let offset = offset_bits(block_size as nat);
        let index = index_bits(cache_size as nat, associativity as nat, block_size as nat);
        AddressLayout::with(
            offset as usize,
            index as usize,
            (ADDR_LEN - (offset + index)) as usize,
            (associativity * block_size) as usize,
            block_size,
        )
    }

    /// A cache of the given shape that holds nothing yet.
    pub open spec fn fresh(
        core_id: usize,
        cache_size: usize,
        associativity: usize,
        block_size: usize,
        kind: ProtocolKind,
    ) -> CacheView {
        let slots = (cache_size / block_size) as nat;
        let layout = Self::layout_for(cache_size, associativity, block_size);
        CacheView {
            core_id,
            tags: Seq::new(slots, |i: int| PLACEHOLDER_TAG),
            lru: LruView { storage: Seq::new(slots, |i: int| 0usize), ways: associativity, cnt: 1 },
            protocol: ProtocolBuilder::fresh(
                core_id,
                kind,
                cache_size,
                block_size,
                associativity,
                layout,
            ),
            layout,
            block_size,
            pending: Seq::empty(),
            write_missed: false,
            stats: CacheStats {
                num_data_cache_misses: 0,
                num_data_cache_hits: 0,
                num_private_data_access: 0,
                num_shared_data_access: 0,
            },
        }
    }

    /// A cache of a valid shape that holds nothing yet is well formed.
    pub proof fn lemma_fresh(
        core_id: usize,
        cache_size: usize,
        associativity: usize,
        block_size: usize,
        kind: ProtocolKind,
    )
        requires
            valid_geometry(cache_size as nat, associativity as nat, block_size as nat),
        ensures
            Self::fresh(core_id, cache_size, associativity, block_size, kind).wf(),
            Self::fresh(core_id, cache_size, associativity, block_size, kind).has_room(),
            Self::fresh(core_id, cache_size, associativity, block_size, kind).lru.wf(),
    {
        lemma_geometry(cache_size as nat, associativity as nat, block_size as nat);
        let offset = offset_bits(block_size as nat);
        let index = index_bits(cache_size as nat, associativity as nat, block_size as nat);
        AddressLayout::lemma_with(
            offset as usize,
            index as usize,
            (ADDR_LEN - (offset + index)) as usize,
            (associativity * block_size) as usize,
            block_size,
        );
        let c = Self::fresh(core_id, cache_size, associativity, block_size, kind);
        assert(c.tags_agree());
        assert forall|addr: u32, i: int|
            #![trigger c.set_start(addr), c.keys()[i]]
            c.set_start(addr) <= i < c.set_start(addr) + c.ways() && c.keys()[i] == Some(
                c.layout.tag_of(addr),
            ) implies c.search(addr) == Some(i as usize) by {
            c.layout.lemma_fields_bounded(addr);
            let set = c.layout.index_of(addr) as int;
            let ways = c.ways();
            let sets = c.layout.sets() as int;
            assert(0 <= set * ways && set * ways + ways <= sets * ways) by (nonlinear_arith)
                requires
                    0 <= set < sets,
                    0 <= ways,
            ;
            assert(c.vacant(i));
        }
    }
}

impl Cache {
    pub fn new(
        core_id: usize,
        cache_size: usize,
        associativity: usize,
        block_size: usize,
        kind: &ProtocolKind,
    ) -> (cache: Self)
        requires
            valid_geometry(cache_size as nat, associativity as nat, block_size as nat),
        ensures
            cache@ == CacheView::fresh(core_id, cache_size, associativity, block_size, *kind),
            cache@.wf(),
            cache@.has_room(),
            cache@.lru.wf(),
    {
        proof {
            lemma_geometry(cache_size as nat, associativity as nat, block_size as nat);
            CacheView::lemma_fresh(core_id, cache_size, associativity, block_size, *kind);
        }
        let set_size: usize = associativity * block_size;
        let num_sets: usize = cache_size / set_size;
        let addr_layout = Cache::layout_for(cache_size, associativity, block_size);
        let slots: usize = num_sets * associativity;
        let mut cache: Vec<u32> = Vec::new();
        let mut i: usize = 0;
        while i < slots
            invariant
                i <= slots,
                cache@ == Seq::new(i as nat, |j: int| PLACEHOLDER_TAG),
            decreases slots - i,
        {
            cache.push(PLACEHOLDER_TAG);
            i = i + 1;
        }
        Cache {
            core_id,
            block_size,
            cache,
            lru: Lru::new(num_sets, associativity),
            protocol: ProtocolBuilder::create(
                core_id,
                kind,
                cache_size,
                block_size,
                associativity,
                &addr_layout,
            ),
            addr_layout,
            scheduled_instructions: VecDeque::new(),
            write_missed: false,
            stats: CacheStats {
                num_data_cache_misses: 0,
                num_data_cache_hits: 0,
                num_private_data_access: 0,
                num_shared_data_access: 0,
            },
        }
    }

    /// The layout of addresses for a cache of the given shape.
    pub fn layout_for(cache_size: usize, associativity: usize, block_size: usize) -> (layout:
        AddressLayout)
        requires
            valid_geometry(cache_size as nat, associativity as nat, block_size as nat),
        ensures
            layout == CacheView::layout_for(cache_size, associativity, block_size),
    {
        proof {
            lemma_geometry(cache_size as nat, associativity as nat, block_size as nat);
        }
        let set_size: usize = associativity * block_size;
        let num_sets: usize = cache_size / set_size;

        let offset_length: usize = floor_log2(block_size / WORD_SIZE);
        let index_length: usize = floor_log2(num_sets);
        let tag_length: usize = ADDR_LEN - (offset_length + index_length);

        AddressLayout::new(offset_length, index_length, tag_length, set_size, block_size)
    }

    /// Simulate a memory load operation.
    pub fn load(&mut self, addr: u32)
        requires
            old(self)@.wf(),
            old(self)@.can_accept(),
        ensures
            final(self)@ == old(self)@.scheduled(addr, ProcessorAction::Read),
            final(self)@.wf(),
    {
        self.scheduled_instructions.push_back((addr, ProcessorAction::Read));
        proof {
            self@.lemma_rescheduled(old(self)@);
        }
    }

    /// Simualate a memory store operation.
    pub fn store(&mut self, addr: u32)
        requires
            old(self)@.wf(),
            old(self)@.can_accept(),
        ensures
            final(self)@ == old(self)@.scheduled(addr, ProcessorAction::Write),
            final(self)@.wf(),
    {
        self.scheduled_instructions.push_back((addr, ProcessorAction::Write));
        proof {
            self@.lemma_rescheduled(old(self)@);
        }
    }

    /// The counts of the cache.
    pub fn stats(&self) -> (stats: CacheStats)
        ensures
            stats == self@.stats,
    {
        self.stats
    }

    /// Whether the stamps can grow by two more.
    pub fn stamps_spare(&self) -> (ok: bool)
        ensures
            ok == (self@.lru.cnt + 1 < usize::MAX),
    {
        self.lru.spare()
    }

    /// The slot that stores the tag of `addr`, if one does.
    pub fn find(&self, addr: u32) -> (found: Option<usize>)
        requires
            self@.wf(),
        ensures
            found == self@.search(addr),
    {
        proof {
            self@.lemma_set(addr);
        }
        match self.search(addr) {
            Some((set_idx, block_idx)) => Some(
                self.addr_layout.nested_to_flat(set_idx, block_idx),
            ),
            None => None,
        }
    }

    /// What slot `idx` holds, in terms common to the protocols.
    pub fn state_at(&self, idx: usize) -> (state: LineState)
        requires
            self@.wf(),
            idx < self@.tags.len(),
        ensures
            state == self@.protocol.state(idx as int),
    {
        self.protocol.state_at(idx)
    }

    /// The number of the core that the cache belongs to.
    pub fn core_id(&self) -> (id: usize)
        ensures
            id == self@.core_id,
    {
        self.core_id
    }

    /// Size of a block in bytes.
    pub fn block_size(&self) -> (bytes: usize)
        ensures
            bytes == self@.block_size,
    {
        self.block_size
    }

    /// Whether one more access can be handed in.
    pub fn can_accept(&self) -> (ok: bool)
        ensures
            ok == self@.can_accept(),
    {
        self.scheduled_instructions.len() < 2
    }

    /// Whether a cycle would leave three accesses waiting.
    pub fn overflows(&self, bus: &Bus) -> (over: bool)
        requires
            self@.wf(),
        ensures
            over == self@.overflows(bus@),
    {
        let waiting: bool = match bus.task() {
            Some(t) => t.issuer_id == self.core_id,
            None => false,
        };
        if waiting || self.scheduled_instructions.len() != 2 {
            return false;
        }
        let (addr, action) = self.scheduled_instructions[0];
        proof {
            let rest = CacheView { pending: self@.pending.skip(1), ..self@ };
            assert(rest.keys() =~= self@.keys());
        }
        match action {
            ProcessorAction::Read => false,
            ProcessorAction::Write => self.search(addr).is_none(),
        }
    }

    /// Whether the counts and stamps can grow by what one access may add.
    pub fn has_room(&self) -> (ok: bool)
        ensures
            ok == self@.has_room(),
    {
        self.stats.num_data_cache_misses < usize::MAX && self.stats.num_data_cache_hits
            < usize::MAX && self.stats.num_private_data_access < usize::MAX
            && self.stats.num_shared_data_access < usize::MAX && self.lru.has_room()
    }
}

impl CacheView {
    /// A cache that differs from a well-formed one only in what waits and in whether
    /// the store that waits has missed, and at which no more than two accesses wait, is
    /// well formed and finds what the other finds.
    pub proof fn lemma_rescheduled(self, earlier: CacheView)
        requires
            earlier.wf(),
            self == (CacheView {
                pending: self.pending,
                write_missed: self.write_missed,
                ..earlier
            }),
            self.pending.len() <= 2,
        ensures
            self.wf(),
            self.keys() == earlier.keys(),
            forall|addr: u32| self.search(addr) == earlier.search(addr),
    {
        assert(self.keys() =~= earlier.keys());
        assert forall|addr: u32, i: int|
            #![trigger self.set_start(addr), self.keys()[i]]
            self.set_start(addr) <= i < self.set_start(addr) + self.ways() && self.keys()[i]
                == Some(self.layout.tag_of(addr)) implies self.search(addr) == Some(i as usize) by {
            assert(earlier.set_start(addr) <= i && earlier.keys()[i] == Some(
                earlier.layout.tag_of(addr),
            ));
        }
    }
}

impl Cache {
    /// Advance internal counters.
    /// Returns true iff the cache stalls.
    pub fn update(&mut self, bus: &mut Bus) -> (stall: bool)
        requires
            old(self)@.wf(),
            old(self)@.has_room(),
            old(self)@.bus_has_room(old(bus)@),
            !old(self)@.overflows(old(bus)@),
        ensures
            (final(self)@, final(bus)@, stall) == old(self)@.updated(old(bus)@),
            final(self)@.wf(),
            old(self)@.lru.wf() ==> final(self)@.lru.wf(),
    {
        proof {
            self@.lemma_updated(bus@);
            if self@.lru.wf() {
                self@.lemma_updated_stamps(bus@);
            }
        }
        // we currently write to the bus => better back off until this is finished
        let waiting: bool = match bus.active_task() {
            Some(t) => t.issuer_id == self.core_id,
            None => false,
        };
        if waiting {
            return true;
        }
        let ghost before = self@;
        if let Some((addr, action)) = self.scheduled_instructions.pop_front() {
            proof {
                assert(self@.pending =~= before.pending.skip(1));
                self@.lemma_rescheduled(before);
            }
            // loads are always stored as next instruction, stores might place loads in front and
            // are therefore always the last instruction.
            match action {
                ProcessorAction::Read => {
                    if !self.internal_load(addr, bus) {
                        self.scheduled_instructions.push_front((addr, ProcessorAction::Read));
                    }
                },
                ProcessorAction::Write => {
                    if !self.internal_store(addr, bus) {
                        self.scheduled_instructions.push_back((addr, ProcessorAction::Write));
                    }
                },
            }
            return true;
        }
        false
    }

    pub fn snoop(&mut self, bus: &mut Bus)
        requires
            old(self)@.wf(),
            old(self)@.protocol.snoop_allowed(old(bus)@.task),
        ensures
            (final(self)@, final(bus)@) == old(self)@.snooped(old(bus)@),
            final(self)@.wf(),
    {
        proof {
            self@.lemma_bus_steps(bus@);
        }
        if let Some(task) = self.protocol.snoop(bus) {
            match bus.active_task() {
                Some(t) => {
                    *t = task;
                },
                None => {},
            }
        }
    }

    pub fn after_snoop(&mut self, bus: &mut Bus)
        requires
            old(self)@.wf(),
            old(self)@.holds_own(old(bus)@),
            old(self)@.has_room(),
        ensures
            (final(self)@, final(bus)@) == old(self)@.settled(old(bus)@),
            final(self)@.wf(),
    {
        proof {
            self@.lemma_bus_steps(bus@);
            self@.lemma_settled_holds(bus@);
        }
        self.protocol.after_snoop(bus);
        let action: BusAction = match bus.active_task() {
            Some(t) => {
                if t.issuer_id == self.core_id && t.remaining_cycles == 0 {
                    t.action
                } else {
                    return ;
                }
            },
            None => {
                return ;
            },
        };
        if let BusAction::Flush(_, _) = action {
            return ;
        }
        let addr: u32 = BusAction::extract_addr(action);
        if self.protocol.is_shared(usize::MAX, addr) {
            self.stats.num_shared_data_access += 1;
        } else {
            self.stats.num_private_data_access += 1;
        }
    }

    /// Read broadcast optimization
    pub fn read_broadcast(&mut self, bus: &mut Bus)
        requires
            old(self)@.wf(),
            old(self)@.protocol.broadcast_allowed(),
        ensures
            (final(self)@, final(bus)@) == old(self)@.snarfed(old(bus)@),
            final(self)@.wf(),
    {
        proof {
            self@.lemma_bus_steps(bus@);
        }
        self.protocol.read_broadcast(bus);
    }

    /// Returns true if the operation could be completed / scheduled
    fn internal_load(&mut self, addr: u32, bus: &mut Bus) -> (done: bool)
        requires
            old(self)@.wf(),
            old(self)@.has_room(),
            old(self)@.bus_has_room(old(bus)@),
        ensures
            (final(self)@, final(bus)@, done) == old(self)@.loaded(addr, old(bus)@),
    {
        proof {
            self@.lemma_set(addr);
            self@.lemma_accepts(addr, ProcessorAction::Read, bus@.task is Some);
        }
        let store_idx: Option<(usize, usize)> = self.search(addr);
        let (evict_set, evict_block) = self.get_evict_index(addr);
        let flat_store_idx: Option<usize> = match store_idx {
            Some((set_idx, block_idx)) => Some(self.addr_layout.nested_to_flat(set_idx, block_idx)),
            None => None,
        };
        let flat_evict_idx: usize = self.addr_layout.nested_to_flat(evict_set, evict_block);
        let evict_tag: u32 = self.cache[flat_evict_idx];

        if store_idx.is_none() {
            let occupied: bool = evict_tag != PLACEHOLDER_TAG || !matches!(
                self.protocol.state_at(flat_evict_idx),
                LineState::Invalid
            );
            let writeback_required: bool = occupied && self.protocol.writeback_required(
                flat_evict_idx,
                evict_tag,
            );

            // first execute write_back, then care about loading / coherence of new value
            if writeback_required {
                if bus.occupied() {
                    return false;
                }
                bus.put_on(self.core_id, BusAction::Flush(evict_tag, self.block_size));
                self.protocol.invalidate(flat_evict_idx, evict_tag);

                // clear cache for later insert
                self.cache[flat_evict_idx] = PLACEHOLDER_TAG;
                // set Lru to low value, so this cell will be evicted next.
                self.lru.eliminate(evict_set, evict_block);
                return false;
            }
        }
        // --- after this point, the optional write-back is already done => load new value!
        let bus_action: Option<BusAction> = self.protocol.read(
            addr,
            flat_store_idx,
            flat_evict_idx,
            store_idx.is_some(),
            bus,
        );

        if let Some(action) = bus_action {
            if bus.occupied() {
                return false;
            }
            bus.put_on(self.core_id, action);
        }
        if let Some((set_idx, block_idx)) = store_idx {
            self.log_access(set_idx, block_idx);
            self.stats.num_data_cache_hits += 1;

            if bus_action.is_none() {
                if self.protocol.is_shared(flat_store_idx.unwrap(), addr) {
                    self.stats.num_shared_data_access += 1;
                } else {
                    self.stats.num_private_data_access += 1;
                }
            }
        } else {
            // the memory for this is already flushed to main memory
            self.insert_and_evict(addr);
            self.stats.num_data_cache_misses += 1;
        }
        true
    }

    /// Returns true if the operation could be completed / scheduled
    fn internal_store(&mut self, addr: u32, bus: &mut Bus) -> (done: bool)
        requires
            old(self)@.wf(),
            old(self)@.has_room(),
            old(self)@.bus_has_room(old(bus)@),
        ensures
            (final(self)@, final(bus)@, done) == old(self)@.stored(addr, old(bus)@),
    {
        proof {
            self@.lemma_set(addr);
        }
        // write-alloc cache => test if addr is cached
        let cache_idx: (usize, usize) = match self.search(addr) {
            Some(idx) => idx,
            None => {
                self.scheduled_instructions.push_front((addr, ProcessorAction::Read));
                self.write_missed = true;
                return false;
            },
        };
        proof {
            self@.lemma_accepts(addr, ProcessorAction::Write, bus@.task is Some);
        }
        let flat_cache_idx: usize = self.addr_layout.nested_to_flat(cache_idx.0, cache_idx.1);
        let bus_action: Option<BusAction> = self.protocol.write(
            addr,
            Some(flat_cache_idx),
            flat_cache_idx,
            true,
            bus,
        );

        if let Some(action) = bus_action {
            if bus.occupied() {
                return false;
            }
            bus.put_on(self.core_id, action);
        }
        if !self.write_missed {
            self.stats.num_data_cache_hits += 1;
        }
        self.write_missed = false;
        true
    }

    fn search_cache_set(&self, addr: u32, set_idx: usize) -> (found: Option<usize>)
        requires
            self@.wf(),
            set_idx == self@.layout.index_of(addr),
        ensures
            match found {
                Some(block_idx) => block_idx < self@.ways() && self@.search(addr) == Some(
                    (self@.set_start(addr) + block_idx) as usize,
                ),
                None => self@.search(addr) is None,
            },
    {
        proof {
            self@.lemma_set(addr);
        }
        let tag: u32 = self.addr_layout.tag(addr);
        let ways: usize = self.lru.ways();
        assert(set_idx * ways == self@.set_start(addr));
        let start: usize = set_idx * ways;
        let mut block_idx: usize = 0;
        while block_idx < ways
            invariant
                block_idx <= ways,
                ways == self@.ways(),
                start == self@.set_start(addr),
                start + ways <= self.cache@.len() <= usize::MAX,
                self@.protocol.slots() == self.cache@.len(),
                tag == self@.layout.tag_of(addr),
                forall|j: int| start <= j < start + block_idx ==> self@.keys()[j] != Some(tag),
            decreases ways - block_idx,
        {
            if self.cache[start + block_idx] == tag && (tag != PLACEHOLDER_TAG || !matches!(
                self.protocol.state_at(start + block_idx),
                LineState::Invalid
            )) {
                proof {
                    assert(self@.keys()[start + block_idx] == Some(tag));
                    lemma_first_match_is(
                        self@.keys(),
                        tag,
                        start as int,
                        start + ways,
                        start + block_idx,
                    );
                }
                return Some(block_idx);
            }
            block_idx = block_idx + 1;
        }
        proof {
            lemma_first_match_none(self@.keys(), tag, start as int, start + ways);
        }
        None
    }

    /// Test if supplied addr's tag is currently cached.
    /// Returns set and way of the first slot of the set that stores it.
    fn search(&self, addr: u32) -> (found: Option<(usize, usize)>)
        requires
            self@.wf(),
        ensures
            match found {
                Some((set_idx, block_idx)) => {
                    &&& set_idx == self@.layout.index_of(addr)
                    &&& block_idx < self@.ways()
                    &&& self@.search(addr) == Some((self@.set_start(addr) + block_idx) as usize)
                },
                None => self@.search(addr) is None,
            },
    {
        let set_idx: usize = self.addr_layout.index(addr);
        match self.search_cache_set(addr, set_idx) {
            Some(block_idx) => Some((set_idx, block_idx)),
            None => None,
        }
    }

    fn log_access(&mut self, set_idx: usize, block_idx: usize)
        requires
            old(self)@.lru.has(set_idx as int, block_idx as int),
            old(self)@.lru.cnt < usize::MAX,
        ensures
            final(self)@ == (CacheView {
                lru: old(self)@.lru.touched(set_idx as int, block_idx as int),
                ..old(self)@
            }),
    {
        self.lru.update(set_idx, block_idx);
    }

    fn get_evict_index(&self, addr_to_load: u32) -> (evict: (usize, usize))
        requires
            self@.wf(),
        ensures
            evict.0 == self@.layout.index_of(addr_to_load),
            evict.1 == self@.lru.victim(evict.0 as int),
            self@.evict_slot(addr_to_load) == self@.set_start(addr_to_load) + evict.1,
    {
        proof {
            self@.lemma_set(addr_to_load);
        }
        let set_idx: usize = self.addr_layout.index(addr_to_load);
        self.lru.get_lru_idx(set_idx)
    }

    fn insert_and_evict(&mut self, addr_to_load: u32)
        requires
            old(self)@.wf_but_protocol(),
            old(self)@.lru.cnt < usize::MAX,
        ensures
            final(self)@ == (CacheView {
                tags: old(self)@.tags.update(
                    old(self)@.evict_slot(addr_to_load),
                    old(self)@.layout.tag_of(addr_to_load),
                ),
                lru: old(self)@.lru.touched(
                    old(self)@.layout.index_of(addr_to_load) as int,
                    old(self)@.lru.victim(old(self)@.layout.index_of(addr_to_load) as int),
                ),
                ..old(self)@
            }),
    {
        proof {
            self@.lemma_set_range(addr_to_load);
        }
        let new_tag: u32 = self.addr_layout.tag(addr_to_load);
        let set_idx: usize = self.addr_layout.index(addr_to_load);
        let evict_idx: usize = self.lru.get_lru_idx(set_idx).1;
        let flat: usize = self.addr_layout.nested_to_flat(set_idx, evict_idx);
        self.lru.update(set_idx, evict_idx);
        self.cache[flat] = new_tag;
    }

    /// Compares the tag array with the table of the protocol: tells whether the table
    /// carries, in every slot that stores a tag, that tag.
    pub fn sanity_check(&self) -> (ok: bool)
        requires
            self@.protocol.slots() == self@.tags.len(),
        ensures
            ok == self@.tables_match(),
            self@.wf() ==> ok,
    {
        let mut idx: usize = 0;
        let slots: usize = self.cache.len();
        while idx < slots
            invariant
                idx <= slots,
                slots == self@.tags.len(),
                self@.protocol.slots() == self@.tags.len(),
                forall|i: int| 0 <= i < idx ==> self@.slot_matches(i),
            decreases slots - idx,
        {
            let block: u32 = self.cache[idx];
            let prot_tag: Option<u32> = self.protocol.sanity_check(idx);
            if prot_tag.is_some() && block != PLACEHOLDER_TAG {
                if prot_tag.unwrap() != block {
                    proof {
                        assert(!self@.slot_matches(idx as int));
                        if self@.wf() {
                            assert(self@.protocol.tag(idx as int) == self@.tags[idx as int]);
                        }
                    }
                    return false;
                }
            }
            idx = idx + 1;
        }
        proof {
            if self@.wf() {
                assert forall|i: int| 0 <= i < self@.tags.len() implies self@.slot_matches(i) by {
                    assert(self@.protocol.tag(i) == self@.tags[i]);
                }
            }
        }
        true
    }
}

impl CacheView {
    /// Whether the table of the protocol, where it carries a tag in slot `i` and the tag
    /// array stores one there, carries the one stored.
    pub open spec fn slot_matches(self, i: int) -> bool {
        self.protocol.stored()[i] is Some && self.tags[i] != PLACEHOLDER_TAG
            ==> self.protocol.stored()[i] == Some(self.tags[i])
    }

    /// Whether every slot matches.
    pub open spec fn tables_match(self) -> bool {
        forall|i: int| 0 <= i < self.tags.len() ==> self.slot_matches(i)
    }

    /// What the tag array and the stamps alone need of each other.
    pub open spec fn wf_but_protocol(self) -> bool {
        &&& self.layout.wf()
        &&& self.lru.ways >= 1
        &&& self.layout.ways() == self.ways()
        &&& self.tags.len() == self.layout.sets() * self.ways()
        &&& self.tags.len() <= usize::MAX
        &&& self.lru.storage.len() == self.tags.len()
    }

    /// The set of an address lies inside the tag array, and the slot to evict in the set.
    pub proof fn lemma_set_range(self, addr: u32)
        requires
            self.wf_but_protocol(),
        ensures
            0 <= self.set_start(addr),
            self.set_start(addr) + self.ways() <= self.tags.len(),
            0 <= self.lru.victim(self.layout.index_of(addr) as int) < self.ways(),
    {
        self.layout.lemma_fields_bounded(addr);
        let set = self.layout.index_of(addr) as int;
        let ways = self.ways();
        let sets = self.layout.sets() as int;
        assert(0 <= set * ways && set * ways + ways <= sets * ways) by (nonlinear_arith)
            requires
                0 <= set < sets,
                0 <= ways,
        ;
        self.lru.lemma_victim(set);
    }

    /// What settling classifies is there to classify: where the transaction on the bus
    /// completes an access of this cache, the cache holds the block in a valid state.
    pub proof fn lemma_settled_holds(self, bus: BusView)
        requires
            self.wf(),
            self.holds_own(bus),
        ensures
            self.completes(bus) ==> self.protocol.settled(bus.task).0.classifiable(
                usize::MAX,
                self.protocol.settled(bus.task).1.unwrap().action.addr(),
            ),
    {
        if bus.task is Some {
            let addr = bus.task.unwrap().action.addr();
            match self.protocol {
                ProtocolView::Mesi(m) => {
                    m.lemma_set_in_table(addr);
                    m.lemma_shape_kept(bus.task);
                    let after = m.settled(bus.task);
                    assert(after.keys() =~= m.keys());
                },
                ProtocolView::Dragon(d) => {
                    d.lemma_set_in_table(addr);
                    d.lemma_shape_kept(bus.task);
                    let after = d.settled(bus.task).0;
                    assert(after.keys() =~= d.keys());
                },
            }
        }
    }
}

impl CacheView {
    /// A cycle adds no more than one to any count and to the stamp, and nothing while
    /// the cache stalls for its own transaction or has nothing to do.
    pub proof fn lemma_updated_room(self, bus: BusView)
        requires
            self.wf(),
            self.has_room(),
            self.bus_has_room(bus),
            !self.overflows(bus),
        ensures
            self.updated(bus).0.stats.within(self.stats, 1),
            self.updated(bus).0.lru.cnt <= self.lru.cnt + 1,
            self.updated(bus).1.traffic >= bus.traffic,
            self.updated(bus).1.num_invalid_or_upd >= bus.num_invalid_or_upd,
            !self.updated(bus).2 ==> self.updated(bus).0 == self && self.updated(bus).1 == bus,
    {
        if !self.waits_for(bus) && self.pending.len() > 0 {
            let (addr, action) = self.pending[0];
            let rest = CacheView { pending: self.pending.skip(1), ..self };
            rest.lemma_rescheduled(self);
            rest.lemma_set(addr);
            match action {
                ProcessorAction::Read => {
                    rest.lemma_accepts(addr, ProcessorAction::Read, bus.task is Some);
                    rest.protocol.lemma_processed(
                        addr,
                        rest.search(addr),
                        rest.evict_slot(addr) as usize,
                        rest.search(addr) is Some,
                        ProcessorAction::Read,
                        bus.task is Some,
                    );
                },
                ProcessorAction::Write => {
                    if rest.search(addr) is Some {
                        rest.lemma_accepts(addr, ProcessorAction::Write, bus.task is Some);
                        rest.protocol.lemma_processed(
                            addr,
                            rest.search(addr),
                            rest.search(addr).unwrap(),
                            true,
                            ProcessorAction::Write,
                            bus.task is Some,
                        );
                    }
                },
            }
        }
    }

    /// A cycle keeps every stamp below the stamp that the next use gets.
    pub proof fn lemma_updated_stamps(self, bus: BusView)
        requires
            self.wf(),
            self.lru.wf(),
            self.lru.cnt < usize::MAX,
        ensures
            self.updated(bus).0.lru.wf(),
    {
        if !self.waits_for(bus) && self.pending.len() > 0 {
            let (addr, action) = self.pending[0];
            let rest = CacheView { pending: self.pending.skip(1), ..self };
            rest.lemma_rescheduled(self);
            rest.lemma_set(addr);
            let set = rest.layout.index_of(addr) as int;
            let way = rest.lru.victim(set);
            assert(rest.lru.has(set, way));
            rest.lru.lemma_touched(set, way);
            rest.lru.lemma_eliminated(set, way);
            if rest.search(addr) is Some {
                let hit = rest.search(addr).unwrap() - rest.set_start(addr);
                assert(rest.lru.has(set, hit));
                rest.lru.lemma_touched(set, hit);
            }
        }
    }

    /// Snooping and read broadcast leave the counts and the totals of the bus alone;
    /// settling adds no more than one to a count.
    pub proof fn lemma_bus_steps_room(self, bus: BusView)
        requires
            self.wf(),
        ensures
            self.snooped(bus).0.stats == self.stats,
            self.snarfed(bus).0.stats == self.stats,
            self.settled(bus).0.stats.within(self.stats, 1),
            self.stats.has_room(1) ==> self.settled(bus).0.stats.no_less_than(self.stats),
            self.snooped(bus).0.lru == self.lru,
            self.snarfed(bus).0.lru == self.lru,
            self.settled(bus).0.lru == self.lru,
            self.snooped(bus).0.pending == self.pending,
            self.snarfed(bus).0.pending == self.pending,
            self.settled(bus).0.pending == self.pending,
            self.snooped(bus).1 == bus.with_task(self.snooped(bus).1.task),
            self.snarfed(bus).1 == bus.with_task(self.snarfed(bus).1.task),
            self.settled(bus).1 == bus.with_task(self.settled(bus).1.task),
    {
    }

    /// In every slot the table of the protocol carries the tag that the tag array
    /// stores there, and a lookup sees that tag unless the slot is empty.
    pub proof fn lemma_tags_agree(self, idx: int)
        requires
            self.wf(),
            0 <= idx < self.tags.len(),
        ensures
            self.protocol.tag(idx) == self.tags[idx],
            self.keys()[idx] == self.protocol.keys()[idx],
            !(self.protocol.state(idx) is Invalid) ==> self.keys()[idx] == Some(self.tags[idx]),
    {
        self.protocol.lemma_keys(idx);
    }

    /// Fewer than three accesses wait at a cache.
    pub proof fn lemma_pending_bound(self)
        requires
            self.wf(),
        ensures
            self.pending.len() < 3,
    {
    }
}

impl CacheView {
    /// A cache that holds nothing yet finds no valid line for any address.
    pub proof fn lemma_fresh_empty(
        core_id: usize,
        cache_size: usize,
        associativity: usize,
        block_size: usize,
        kind: ProtocolKind,
        addr: u32,
    )
        requires
            valid_geometry(cache_size as nat, associativity as nat, block_size as nat),
        ensures
            ({
                let c = Self::fresh(core_id, cache_size, associativity, block_size, kind);
                match c.protocol.find(addr) {
                    Some(idx) => c.protocol.state(idx as int) is Invalid,
                    None => true,
                }
            }),
    {
        let c = Self::fresh(core_id, cache_size, associativity, block_size, kind);
        Self::lemma_fresh(core_id, cache_size, associativity, block_size, kind);
        c.lemma_set(addr);
        match c.protocol {
            ProtocolView::Mesi(m) => {
                m.lemma_set_in_table(addr);
            },
            ProtocolView::Dragon(d) => {
                d.lemma_set_in_table(addr);
            },
        }
    }
}

} // verus!
