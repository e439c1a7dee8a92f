use crate::bus::{Bus, BusView};
use crate::cache::{Cache, CacheStats, CacheView};
use crate::geometry::valid_geometry;
use crate::protocol::{ProcessorAction, ProtocolKind};
use crate::record::{Label, Record, RecordStream};
use crate::utils::Counter;
use vstd::prelude::*;

verus! {

/// What a core counts.
#[derive(Default, Clone, Debug)]
pub struct CoreStats {
    pub file_name: String,
    pub exec_cycles: usize,
    pub compute_cycles: usize,
    pub mem_ops: usize,
    pub idle_cycles: usize,
    pub num_instructions: usize,
    pub load_instructions: usize,
    pub store_instructions: usize,
    pub cache: CacheStats,
}

/// The counts of a core as a value.
pub struct CoreStatsView {
    pub file_name: Seq<char>,
    pub exec_cycles: usize,
    pub compute_cycles: usize,
    pub mem_ops: usize,
    pub idle_cycles: usize,
    pub num_instructions: usize,
    pub load_instructions: usize,
    pub store_instructions: usize,
    pub cache: CacheStats,
}

impl View for CoreStats {
    type V = CoreStatsView;

    open spec fn view(&self) -> CoreStatsView {
        CoreStatsView {
            file_name: self.file_name@,
            exec_cycles: self.exec_cycles,
            compute_cycles: self.compute_cycles,
            mem_ops: self.mem_ops,
            idle_cycles: self.idle_cycles,
            num_instructions: self.num_instructions,
            load_instructions: self.load_instructions,
            store_instructions: self.store_instructions,
            cache: self.cache,
        }
    }
}

impl CoreStatsView {
    /// The counts with nothing counted yet.
    pub open spec fn zero(file_name: Seq<char>) -> CoreStatsView {
        CoreStatsView {
            file_name,
            exec_cycles: 0,
            compute_cycles: 0,
            mem_ops: 0,
            idle_cycles: 0,
            num_instructions: 0,
            load_instructions: 0,
            store_instructions: 0,
            cache: CacheStats {
                num_data_cache_misses: 0,
                num_data_cache_hits: 0,
                num_private_data_access: 0,
                num_shared_data_access: 0,
            },
        }
    }

    /// The counts after `record` was fetched.
    pub open spec fn fetched(self, record: Record) -> CoreStatsView {
        let counted = CoreStatsView {
            num_instructions: (self.num_instructions + 1) as usize,
            ..self
        };
        match record.label {
            Label::Load => CoreStatsView {
                mem_ops: (self.mem_ops + 1) as usize,
                load_instructions: (self.load_instructions + 1) as usize,
                ..counted
            },
            Label::Store => CoreStatsView {
                mem_ops: (self.mem_ops + 1) as usize,
                store_instructions: (self.store_instructions + 1) as usize,
                ..counted
            },
            Label::Other => CoreStatsView {
                compute_cycles: (self.compute_cycles + record.value) as usize,
                ..counted
            },
        }
    }

    /// Whether the counts can take what one cycle may add, `next` being the record that
    /// the cycle may fetch.
    pub open spec fn has_room(self, next: Option<Record>) -> bool {
        &&& self.idle_cycles < usize::MAX
        &&& self.mem_ops < usize::MAX
        &&& self.num_instructions < usize::MAX
        &&& self.load_instructions < usize::MAX
        &&& self.store_instructions < usize::MAX
        &&& match next {
            Some(record) => record.label is Other ==> self.compute_cycles + record.value
                <= usize::MAX,
            None => true,
        }
    }

    /// Whether no count of `self` is below that of `earlier`.
    pub open spec fn no_less_than(self, earlier: CoreStatsView) -> bool {
        &&& self.exec_cycles >= earlier.exec_cycles
        &&& self.compute_cycles >= earlier.compute_cycles
        &&& self.mem_ops >= earlier.mem_ops
        &&& self.idle_cycles >= earlier.idle_cycles
        &&& self.num_instructions >= earlier.num_instructions
        &&& self.load_instructions >= earlier.load_instructions
        &&& self.store_instructions >= earlier.store_instructions
    }
}

/// One core of the system: it works its trace off record by record, computing or
/// waiting for its cache.
pub struct Core {
    cache: Cache,
    alu: Counter,
    records: RecordStream,
    id: usize,
    stats: CoreStats,
}

/// A core as a value.
#[verifier::ext_equal]
pub struct CoreView {
    pub cache: CacheView,
    /// Cycles that the computation under way still takes.
    pub alu: u32,
    /// The trace.
    pub records: Seq<Record>,
    /// Number of records fetched so far.
    pub pos: nat,
    pub id: usize,
    pub stats: CoreStatsView,
}

impl View for Core {
    type V = CoreView;

    closed spec fn view(&self) -> CoreView {
        CoreView {
            cache: self.cache@,
            alu: self.alu.value,
            records: self.records.records(),
            pos: self.records.position(),
            id: self.id,
            stats: self.stats@,
        }
    }
}

impl CoreView {
    /// The record that is fetched next, if one is left.
    pub open spec fn next(self) -> Option<Record> {
        if self.pos < self.records.len() {
            Some(self.records[self.pos as int])
        } else {
            None
        }
    }

    /// The cache is the core's own and well formed, a store waits at it only as the
    /// last access, and no more records are fetched than there are.
    pub open spec fn wf(self) -> bool {
        &&& self.cache.wf()
        &&& self.cache.in_order()
        &&& self.cache.core_id == self.id
        &&& self.pos <= self.records.len()
    }

    /// Whether the counts of the core and of its cache can take what one cycle may add.
    pub open spec fn has_room(self) -> bool {
        self.cache.has_room() && self.stats.has_room(self.next())
    }

    /// The core after it fetched `record`: the record is counted, and a load or a store
    /// waits at the cache, while a computation starts.
    pub open spec fn fetched(self, record: Record) -> CoreView {
        CoreView {
            pos: self.pos + 1,
            stats: self.stats.fetched(record),
            cache: match record.label {
                Label::Load => self.cache.scheduled(record.value, ProcessorAction::Read),
                Label::Store => self.cache.scheduled(record.value, ProcessorAction::Write),
                Label::Other => self.cache,
            },
            alu: match record.label {
                Label::Other => record.value,
                _ => self.alu,
            },
            ..self
        }
    }

    /// What one cycle does to the core and the bus, and whether the core is still at
    /// work. A core that computes does that. Otherwise its cache works; where the cache
    /// stalls, the cycle is idle. Otherwise the core fetches the next record and lets
    /// the computation and the cache work on it in the same cycle. A core whose trace
    /// has run out notes the cycle of its end and is no longer at work.
    #[verifier::opaque]
    pub open spec fn stepped(self, bus: BusView, clk: usize) -> (CoreView, BusView, bool) {
        if self.alu != 0 {
            (CoreView { alu: (self.alu - 1) as u32, ..self }, bus, true)
        } else {
            let (cache, after, stall) = self.cache.updated(bus);
            if stall {
                (
                    CoreView {
                        cache,
                        stats: CoreStatsView {
                            idle_cycles: (self.stats.idle_cycles + 1) as usize,
                            ..self.stats
                        },
                        ..self
                    },
                    after,
                    true,
                )
            } else {
                match self.next() {
                    Some(record) => {
                        let fetched = self.fetched(record);
                        let (cache, after, stall) = fetched.cache.updated(bus);
                        (
                            CoreView {
                                cache,
                                alu: if fetched.alu == 0 {
                                    0
                                } else {
                                    (fetched.alu - 1) as u32
                                },
                                ..fetched
                            },
                            after,
                            true,
                        )
                    },
                    None => (
                        CoreView {
                            stats: CoreStatsView { exec_cycles: clk, ..self.stats },
                            ..self
                        },
                        bus,
                        false,
                    ),
                }
            }
        }
    }

    /// The core with its cache replaced.
    pub open spec fn with_cache(self, cache: CacheView) -> CoreView {
        CoreView { cache, ..self }
    }

    /// What snooping does to the core and the bus.
    pub open spec fn snooped(self, bus: BusView) -> (CoreView, BusView) {
        (self.with_cache(self.cache.snooped(bus).0), self.cache.snooped(bus).1)
    }

    /// What read broadcast does to the core and the bus.
    pub open spec fn snarfed(self, bus: BusView) -> (CoreView, BusView) {
        (self.with_cache(self.cache.snarfed(bus).0), self.cache.snarfed(bus).1)
    }

    /// What the end of a cycle does to the core and the bus.
    pub open spec fn settled(self, bus: BusView) -> (CoreView, BusView) {
        (self.with_cache(self.cache.settled(bus).0), self.cache.settled(bus).1)
    }

    /// A core with a cache that holds nothing and a trace of which nothing is fetched.
    pub open spec fn fresh(
        kind: ProtocolKind,
        cache_size: usize,
        associativity: usize,
        block_size: usize,
        records: Seq<Record>,
        file_name: Seq<char>,
        id: usize,
    ) -> CoreView {
        CoreView {
            cache: CacheView::fresh(id, cache_size, associativity, block_size, kind),
            alu: 0,
            records,
            pos: 0,
            id,
            stats: CoreStatsView::zero(file_name),
        }
    }

    /// A core with a well-formed cache of its own in place of the one it had is well
    /// formed.
    pub proof fn lemma_with_cache(self, cache: CacheView)
        requires
            self.wf(),
            cache.wf(),
            cache.in_order(),
            cache.core_id == self.cache.core_id,
        ensures
            self.with_cache(cache).wf(),
    {
    }

    /// A cycle keeps a core well formed, whether or not its counts have room: the core
    /// keeps its number and its trace and its cache keeps its shape. What the step does
    /// to what the cache holds and to the bus is what a cycle of the cache may do, and
    /// the cache of a core that waits for its own transaction stays as it is.
    pub proof fn lemma_stepped_kept(self, bus: BusView, clk: usize)
        requires
            self.wf(),
        ensures
            ({
                let r = self.stepped(bus, clk);
                &&& r.0.wf()
                &&& r.0.id == self.id
                &&& r.0.records == self.records
                &&& r.0.cache.layout == self.cache.layout
                &&& r.0.cache.block_size == self.cache.block_size
                &&& r.0.cache.protocol.same_shape(self.cache.protocol)
                &&& self.cache.issues(r.0.cache, bus, r.1)
                &&& self.cache.waits_for(bus) ==> r.0.cache == self.cache && r.1 == bus
            }),
    {
        reveal(CoreView::stepped);
        self.cache.lemma_updated(bus);
        self.cache.lemma_updated_held(bus);
        if self.alu == 0 {
            let (cache, after, stall) = self.cache.updated(bus);
            if stall {
                self.lemma_with_cache(cache);
            } else {
                match self.next() {
                    Some(record) => {
                        let fetched = self.fetched(record);
                        if !(record.label is Other) {
                            fetched.cache.lemma_rescheduled(self.cache);
                        }
                        self.lemma_with_cache(fetched.cache);
                        fetched.cache.lemma_updated(bus);
                        fetched.cache.lemma_updated_held(bus);
                        let mid = CoreView { pos: self.pos, stats: self.stats, alu: self.alu, ..fetched };
                        assert(mid == self.with_cache(fetched.cache));
                        mid.lemma_with_cache(fetched.cache.updated(bus).0);
                        let r = self.stepped(bus, clk);
                        assert forall|a: u32|
                            {
                                ||| #[trigger] r.0.cache.held(a) == self.cache.held(a)
                                ||| r.0.cache.held(a) is Invalid
                                ||| self.cache.held(a) is Exclusive && r.0.cache.held(a) is Modified
                                ||| r.1 != bus && !(r.1.task.unwrap().action is Flush)
                                    && crate::coherence::same_block(
                                    self.cache.layout,
                                    a,
                                    r.1.task.unwrap().action.addr(),
                                )
                            } by {
                            assert(fetched.cache.held(a) == self.cache.held(a));
                            assert(fetched.cache.updated(bus).0.held(a) == r.0.cache.held(a));
                        }
                    },
                    None => {},
                }
            }
        }
    }

    /// A cycle keeps a core well formed.
    pub proof fn lemma_stepped_wf(self, bus: BusView, clk: usize)
        requires
            self.wf(),
        ensures
            self.stepped(bus, clk).0.wf(),
    {
        self.lemma_stepped_kept(bus, clk);
    }

    /// A cycle keeps a core well formed, lowers no count, leaves the shape of its cache
    /// alone, and puts nothing on the bus but a transaction of the core, and that only
    /// on a free bus.
    pub proof fn lemma_stepped(self, bus: BusView, clk: usize)
        requires
            self.wf(),
            self.has_room(),
            self.stats.exec_cycles <= clk,
        ensures
            ({
                let r = self.stepped(bus, clk);
                &&& r.0.wf()
                &&& r.0.stats.exec_cycles <= clk
                &&& r.0.stats.file_name == self.stats.file_name
                &&& r.0.id == self.id
                &&& r.0.records == self.records
                &&& r.0.pos >= self.pos
                &&& r.0.stats.no_less_than(self.stats)
                &&& r.0.cache.stats.no_less_than(self.cache.stats)
                &&& r.0.cache.layout == self.cache.layout
                &&& r.0.cache.block_size == self.cache.block_size
                &&& r.0.cache.protocol.same_shape(self.cache.protocol)
                &&& r.0.cache.pending.len() < 3
                &&& r.1 == bus || (bus.task is None && r.1.task is Some && r.1.task.unwrap().issuer_id
                    == self.id)
            }),
    {
        reveal(CoreView::stepped);
        if self.alu == 0 {
            self.cache.lemma_updated(bus);
            let (cache, after, stall) = self.cache.updated(bus);
            if stall {
                self.lemma_with_cache(cache);
            } else {
                match self.next() {
                    Some(record) => {
                        let fetched = self.fetched(record);
                        assert(record == self.records[self.pos as int]);
                        if !(record.label is Other) {
                            fetched.cache.lemma_rescheduled(self.cache);
                        }
                        self.lemma_with_cache(fetched.cache);
                        fetched.cache.lemma_updated(bus);
                        let mid = CoreView { pos: self.pos, stats: self.stats, alu: self.alu, ..fetched };
                        assert(mid == self.with_cache(fetched.cache));
                        mid.lemma_with_cache(fetched.cache.updated(bus).0);
                    },
                    None => {},
                }
            }
        }
    }
}

impl CoreView {
    /// Whether the core has room in its counts for a whole cycle: for its step, and for
    /// what its cache counts when transactions settle.
    pub open spec fn spare(self) -> bool {
        &&& self.has_room()
        &&& self.cache.stats.has_room(2)
        &&& self.cache.lru.cnt + 1 < usize::MAX
    }

    /// What a step of a core does to what its cache holds and to the bus is what a
    /// cycle of the cache may do; the cache of a core that waits for its own
    /// transaction stays as it is; a step adds no more than one to any count of the
    /// cache; and the totals of the bus do not fall.
    pub proof fn lemma_stepped_issues(self, bus: BusView, clk: usize)
        requires
            self.wf(),
            self.has_room(),
            self.cache.bus_has_room(bus),
        ensures
            self.cache.issues(self.stepped(bus, clk).0.cache, bus, self.stepped(bus, clk).1),
            self.cache.waits_for(bus) ==> self.stepped(bus, clk).0.cache == self.cache
                && self.stepped(bus, clk).1 == bus,
            self.stepped(bus, clk).0.cache.stats.within(self.cache.stats, 1),
            self.stepped(bus, clk).0.cache.lru.cnt <= self.cache.lru.cnt + 1,
            self.stepped(bus, clk).1.traffic >= bus.traffic,
            self.stepped(bus, clk).1.num_invalid_or_upd >= bus.num_invalid_or_upd,
            self.stepped(bus, clk).1 == bus || self.stepped(bus, clk).1.task is Some,
    {
        reveal(CoreView::stepped);
        self.cache.lemma_updated_held(bus);
        self.cache.lemma_updated_room(bus);
        self.cache.lemma_updated(bus);
        if self.alu == 0 {
            let (cache, after, stall) = self.cache.updated(bus);
            if !stall {
                match self.next() {
                    Some(record) => {
                        let fetched = self.fetched(record);
                        assert(record == self.records[self.pos as int]);
                        if !(record.label is Other) {
                            fetched.cache.lemma_rescheduled(self.cache);
                        }
                        fetched.cache.lemma_updated_held(bus);
                        fetched.cache.lemma_updated_room(bus);
                        fetched.cache.lemma_updated(bus);
                        let r = self.stepped(bus, clk);
                        assert forall|a: u32|
                            {
                                ||| #[trigger] r.0.cache.held(a) == self.cache.held(a)
                                ||| r.0.cache.held(a) is Invalid
                                ||| self.cache.held(a) is Exclusive && r.0.cache.held(a) is Modified
                                ||| r.1 != bus && !(r.1.task.unwrap().action is Flush)
                                    && crate::coherence::same_block(
                                    self.cache.layout,
                                    a,
                                    r.1.task.unwrap().action.addr(),
                                )
                            } by {
                            assert(fetched.cache.held(a) == self.cache.held(a));
                            assert(fetched.cache.updated(bus).0.held(a) == r.0.cache.held(a));
                        }
                    },
                    None => {},
                }
            }
        }
    }
}

impl Core {
    /// A core for the trace `records`, with a cache of the given shape that holds
    /// nothing yet.
    pub fn new(
        protocol: &ProtocolKind,
        cache_size: usize,
        associativity: usize,
        block_size: usize,
        records: RecordStream,
        id: usize,
    ) -> (core: Self)
        requires
            valid_geometry(cache_size as nat, associativity as nat, block_size as nat),
            records.wf(),
            records.position() == 0,
        ensures
            core@ == CoreView::fresh(
                *protocol,
                cache_size,
                associativity,
                block_size,
                records.records(),
                records.name(),
                id,
            ),
            core@.wf(),
    {
        let file_name: String = records.file_name().clone();
        Core {
            cache: Cache::new(id, cache_size, associativity, block_size, protocol),
            alu: Counter::new(),
            id,
            stats: CoreStats {
                file_name,
                exec_cycles: 0,
                compute_cycles: 0,
                mem_ops: 0,
                idle_cycles: 0,
                num_instructions: 0,
                load_instructions: 0,
                store_instructions: 0,
                cache: CacheStats {
                    num_data_cache_misses: 0,
                    num_data_cache_hits: 0,
                    num_private_data_access: 0,
                    num_shared_data_access: 0,
                },
            },
            records,
        }
    }

    /// Simulate one cycle. Return false if no more instructions are left to process.
    pub fn step(&mut self, bus: &mut Bus, clk: usize) -> (active: bool)
        requires
            old(self)@.wf(),
            old(self)@.has_room(),
            old(self)@.cache.bus_has_room(old(bus)@),
        ensures
            (final(self)@, final(bus)@, active) == old(self)@.stepped(old(bus)@, clk),
            final(self)@.wf(),
    {
        proof {
            reveal(CoreView::stepped);
        }
        proof {
            self@.lemma_stepped_wf(bus@, clk);
            self@.cache.lemma_updated(bus@);
        }
        // stall, if required. Remember: if they return false, then they didn't work yet.
        if self.alu.update() {
            return true;
        }
        if self.cache.update(bus) {
            self.stats.idle_cycles += 1;
            return true;
        }
        if let Some(record) = self.records.next() {
            match record.label {
                Label::Load => {
                    self.stats.mem_ops += 1;
                    self.stats.load_instructions += 1
                },
                Label::Store => {
                    self.stats.mem_ops += 1;
                    self.stats.store_instructions += 1
                },
                Label::Other => self.stats.compute_cycles += record.value as usize,
            };

            self.stats.num_instructions += 1;

            proof {
                if !(record.label is Other) {
                    assert(old(self)@.records[old(self)@.pos as int] == record);
                }
            }
            match record.label {
                Label::Load => self.cache.load(record.value),
                Label::Store => self.cache.store(record.value),
                Label::Other => self.alu.value = record.value,
            }
            // they still have a free step in this cycle!
            self.alu.update();
            self.cache.update(bus);
            true
        } else {
            self.stats.exec_cycles = clk;
            false
        }
    }

    pub fn snoop(&mut self, bus: &mut Bus)
        requires
            old(self)@.wf(),
            old(self)@.cache.protocol.snoop_allowed(old(bus)@.task),
        ensures
            (final(self)@, final(bus)@) == old(self)@.snooped(old(bus)@),
            final(self)@.wf(),
    {
        proof {
            self@.cache.lemma_bus_steps(bus@);
            self@.lemma_with_cache(self@.cache.snooped(bus@).0);
        }
        self.cache.snoop(bus);
    }

    pub fn after_snoop(&mut self, bus: &mut Bus)
        requires
            old(self)@.wf(),
            old(self)@.cache.holds_own(old(bus)@),
            old(self)@.cache.has_room(),
        ensures
            (final(self)@, final(bus)@) == old(self)@.settled(old(bus)@),
            final(self)@.wf(),
    {
        proof {
            self@.cache.lemma_bus_steps(bus@);
            self@.lemma_with_cache(self@.cache.settled(bus@).0);
        }
        self.cache.after_snoop(bus);
    }

    /// Compares the tag array of the cache with the table of its protocol: tells whether
    /// the table carries, in every slot that stores a tag, that tag. A well-formed core
    /// passes.
    pub fn sanity_check(&self) -> (ok: bool)
        requires
            self@.cache.protocol.slots() == self@.cache.tags.len(),
        ensures
            ok == self@.cache.tables_match(),
            self@.wf() ==> ok,
    {
        self.cache.sanity_check()
    }

    pub fn read_broadcast(&mut self, bus: &mut Bus)
        requires
            old(self)@.wf(),
            old(self)@.cache.protocol.broadcast_allowed(),
        ensures
            (final(self)@, final(bus)@) == old(self)@.snarfed(old(bus)@),
            final(self)@.wf(),
    {
        proof {
            self@.cache.lemma_bus_steps(bus@);
            self@.lemma_with_cache(self@.cache.snarfed(bus@).0);
        }
        self.cache.read_broadcast(bus);
    }

    /// Whether the counts of the core and of its cache can take what one cycle may add.
    pub fn has_room(&self) -> (ok: bool)
        requires
            self@.wf(),
        ensures
            ok == self@.has_room(),
    {
        let next_fits: bool = match self.records.peek() {
            Some(record) => match record.label {
                Label::Other => record.value as u64 <= (usize::MAX
                    - self.stats.compute_cycles) as u64,
                _ => true,
            },
            None => true,
        };
        self.cache.has_room() && self.stats.idle_cycles < usize::MAX && self.stats.mem_ops
            < usize::MAX && self.stats.num_instructions < usize::MAX
            && self.stats.load_instructions < usize::MAX && self.stats.store_instructions
            < usize::MAX && next_fits
    }

    /// The counts of the core, the counts of its cache among them.
    pub fn stats(&self) -> (stats: CoreStats)
        ensures
            stats@ == (CoreStatsView { cache: self@.cache.stats, ..self@.stats }),
    {
        CoreStats {
            file_name: self.stats.file_name.clone(),
            exec_cycles: self.stats.exec_cycles,
            compute_cycles: self.stats.compute_cycles,
            mem_ops: self.stats.mem_ops,
            idle_cycles: self.stats.idle_cycles,
            num_instructions: self.stats.num_instructions,
            load_instructions: self.stats.load_instructions,
            store_instructions: self.stats.store_instructions,
            cache: self.cache.stats(),
        }
    }

    /// Whether the core has room in its counts for a whole cycle.
    pub fn spare(&self) -> (ok: bool)
        requires
            self@.wf(),
        ensures
            ok == self@.spare(),
    {
        let stats: CacheStats = self.cache.stats();
        self.has_room() && stats.num_data_cache_misses < usize::MAX - 1
            && stats.num_data_cache_hits < usize::MAX - 1 && stats.num_private_data_access
            < usize::MAX - 1 && stats.num_shared_data_access < usize::MAX - 1
            && self.cache.stamps_spare()
    }

    /// Size of a block of the cache in bytes.
    pub fn block_size(&self) -> (bytes: usize)
        ensures
            bytes == self@.cache.block_size,
    {
        self.cache.block_size()
    }

    /// The cache of the core.
    pub fn cache(&self) -> (cache: &Cache)
        ensures
            cache@ == self@.cache,
    {
        &self.cache
    }

    /// The number of the core.
    pub fn id(&self) -> (id: usize)
        ensures
            id == self@.id,
    {
        self.id
    }

    /// Number of records fetched so far.
    pub fn progress(&self) -> (pos: usize)
        ensures
            pos == self@.pos,
    {
        self.records.consumed()
    }
}

} // verus!
