use crate::bus::{BusAction, BusView, Task};
use crate::cache::{CacheStats, CacheView};
use crate::cpu::{CoreStatsView, CoreView};
use crate::lone::loads;
use crate::protocol::{ProcessorAction, ProtocolView};
use crate::record::{Label, Record};
use vstd::prelude::*;

verus! {

/// A core that does nothing but load `addr`: it is well formed with no computation
/// under way, its trace is `n` loads of the address, and its counts are no higher than
/// `bound`, which leaves them room.
pub open spec fn reader(me: CoreView, addr: u32, n: nat, bound: nat) -> bool {
    &&& me.wf()
    &&& me.alu == 0
    &&& me.records == loads(addr, n)
    &&& me.pos <= n
    &&& bound < usize::MAX
    &&& me.stats.idle_cycles <= bound
    &&& me.stats.mem_ops <= bound
    &&& me.stats.num_instructions <= bound
    &&& me.stats.load_instructions <= bound
    &&& me.stats.store_instructions <= bound
    &&& me.cache.stats.num_data_cache_hits <= bound
    &&& me.cache.stats.num_data_cache_misses <= bound
    &&& me.cache.stats.num_private_data_access <= bound
    &&& me.cache.stats.num_shared_data_access <= bound
    &&& me.cache.lru.cnt <= bound
}

/// The step of a reader that waits for its own transaction: an idle cycle.
pub proof fn lemma_reader_waits(me: CoreView, addr: u32, n: nat, bound: nat, bus: BusView, clk: usize)
    requires
        reader(me, addr, n, bound),
        bound + 1 < usize::MAX,
        me.cache.waits_for(bus),
    ensures
        me.stepped(bus, clk).2,
        me.stepped(bus, clk).1 == bus,
        me.stepped(bus, clk).0.cache == me.cache,
        me.stepped(bus, clk).0.pos == me.pos,
        me.stepped(bus, clk).0.id == me.id,
        reader(me.stepped(bus, clk).0, addr, n, bound + 1),
{
    reveal(CoreView::stepped);
    me.lemma_stepped_wf(bus, clk);
}

/// The step of a reader that has nothing waiting and whose next load hits.
pub proof fn lemma_reader_hits(me: CoreView, addr: u32, n: nat, bound: nat, bus: BusView, clk: usize)
    requires
        reader(me, addr, n, bound),
        bound + 1 < usize::MAX,
        !me.cache.waits_for(bus),
        me.cache.pending.len() == 0,
        me.pos < n,
        !(me.cache.held(addr) is Invalid),
    ensures
        ({
            let r = me.stepped(bus, clk);
            &&& r.2
            &&& r.1 == bus
            &&& r.0.pos == me.pos + 1
            &&& r.0.id == me.id
            &&& r.0.cache.pending.len() == 0
            &&& r.0.cache.held(addr) == me.cache.held(addr)
            &&& r.0.cache.block_size == me.cache.block_size
            &&& r.0.cache.layout == me.cache.layout
            &&& r.0.cache.core_id == me.cache.core_id
            &&& r.0.cache.protocol.kind() == me.cache.protocol.kind()
            &&& r.0.cache.stats.num_data_cache_hits == me.cache.stats.num_data_cache_hits + 1
            &&& r.0.cache.stats.num_data_cache_misses == me.cache.stats.num_data_cache_misses
            &&& r.0.cache.stats.num_private_data_access + r.0.cache.stats.num_shared_data_access
                == me.cache.stats.num_private_data_access + me.cache.stats.num_shared_data_access
                + 1
            &&& reader(r.0, addr, n, bound + 1)
        }),
{
    reveal(CoreView::stepped);
    let cache = me.cache;
    let record = Record { label: Label::Load, value: addr };
    assert(me.next() == Some(record));
    let fetched = me.fetched(record);
    assert(fetched.cache.pending =~= seq![(addr, ProcessorAction::Read)]);
    let rest = CacheView { pending: fetched.cache.pending.skip(1), ..fetched.cache };
    assert(rest.pending =~= cache.pending);
    assert(rest == cache);
    cache.lemma_load_hit(addr, bus);
    cache.lemma_loaded(addr, bus);
    let loaded = cache.loaded(addr, bus);
    let stepped = me.stepped(bus, clk);
    assert(stepped.0.cache == loaded.0);
    me.lemma_stepped_wf(bus, clk);
    assert(loaded.0.protocol.same_shape(cache.protocol));
}

/// The step of a reader that has nothing waiting and whose trace has run out.
pub proof fn lemma_reader_ends(me: CoreView, addr: u32, n: nat, bound: nat, bus: BusView, clk: usize)
    requires
        reader(me, addr, n, bound),
        !me.cache.waits_for(bus),
        me.cache.pending.len() == 0,
        me.pos == n,
    ensures
        !me.stepped(bus, clk).2,
        me.stepped(bus, clk).1 == bus,
        me.stepped(bus, clk).0.cache == me.cache,
        me.stepped(bus, clk).0.pos == me.pos,
        me.stepped(bus, clk).0.id == me.id,
        me.stepped(bus, clk).0.stats.exec_cycles == clk,
        reader(me.stepped(bus, clk).0, addr, n, bound),
{
    reveal(CoreView::stepped);
    assert(me.next() is None);
    me.lemma_stepped_wf(bus, clk);
}

/// What a load of a block that the cache does not store does, where the slot to evict
/// holds nothing that the cache owns. With the bus free the load is done: it counts as
/// a miss, the read from memory of one block is on the bus, and the cache holds the
/// block exclusively. With the bus occupied nothing happens, and the load waits on.
pub proof fn lemma_misses(cache: CacheView, addr: u32, bus: BusView)
    requires
        cache.wf(),
        cache.has_room(),
        cache.search(addr) is None,
        !cache.protocol.state(cache.evict_slot(addr)).is_owner(),
    ensures
        ({
            let r = cache.loaded(addr, bus);
            if bus.task is None {
                &&& r.2
                &&& r.1 == bus.put_on(cache.core_id, BusAction::BusRdMem(addr, cache.block_size))
                &&& r.0.held(addr) is Exclusive
                &&& r.0.stats == cache.stats.missed()
                &&& r.0.pending == cache.pending
                &&& r.0.lru.cnt == cache.lru.cnt + 1
                &&& r.0.wf()
                &&& r.0.block_size == cache.block_size
                &&& r.0.layout == cache.layout
                &&& r.0.core_id == cache.core_id
                &&& r.0.protocol.kind() == cache.protocol.kind()
            } else {
                !r.2 && r.0 == cache && r.1 == bus
            }
        }),
{
    cache.lemma_set(addr);
    cache.lemma_accepts(addr, ProcessorAction::Read, bus.task is Some);
    cache.lemma_loaded(addr, bus);
    if bus.task is None {
        cache.lemma_load_miss(addr, bus);
    } else {
        cache.protocol.lemma_processed(
            addr,
            cache.search(addr),
            cache.evict_slot(addr) as usize,
            false,
            ProcessorAction::Read,
            true,
        );
        match cache.protocol {
            ProtocolView::Mesi(m) => {},
            ProtocolView::Dragon(d) => {},
        }
    }
}

/// The step of a reader that fetches a load that misses.
pub proof fn lemma_reader_misses(me: CoreView, addr: u32, n: nat, bound: nat, bus: BusView, clk: usize)
    requires
        reader(me, addr, n, bound),
        bound + 1 < usize::MAX,
        !me.cache.waits_for(bus),
        me.cache.pending.len() == 0,
        me.pos < n,
        me.cache.search(addr) is None,
        !me.cache.protocol.state(me.cache.evict_slot(addr)).is_owner(),
    ensures
        ({
            let r = me.stepped(bus, clk);
            let loaded = me.cache.loaded(addr, bus);
            &&& r.2
            &&& r.1 == loaded.1
            &&& r.0.pos == me.pos + 1
            &&& r.0.id == me.id
            &&& r.0.cache == if bus.task is None {
                loaded.0
            } else {
                me.cache.scheduled(addr, ProcessorAction::Read)
            }
            &&& reader(r.0, addr, n, bound + 1)
        }),
{
    reveal(CoreView::stepped);
    let cache = me.cache;
    let record = Record { label: Label::Load, value: addr };
    assert(me.next() == Some(record));
    let fetched = me.fetched(record);
    assert(fetched.cache.pending =~= seq![(addr, ProcessorAction::Read)]);
    let rest = CacheView { pending: fetched.cache.pending.skip(1), ..fetched.cache };
    assert(rest.pending =~= cache.pending);
    assert(rest == cache);
    lemma_misses(cache, addr, bus);
    let loaded = cache.loaded(addr, bus);
    let stepped = me.stepped(bus, clk);
    me.lemma_stepped_wf(bus, clk);
    if bus.task is Some {
        assert(stepped.0.cache.pending =~= fetched.cache.pending);
        assert(stepped.0.cache == fetched.cache);
    } else {
        assert(stepped.0.cache == loaded.0);
    }
}

/// The step of a reader whose load waits because it missed while the bus was occupied:
/// the load is tried again, and the cycle is idle.
pub proof fn lemma_reader_retries(me: CoreView, addr: u32, n: nat, bound: nat, bus: BusView, clk: usize)
    requires
        reader(me, addr, n, bound),
        bound + 1 < usize::MAX,
        !me.cache.waits_for(bus),
        me.cache.pending == seq![(addr, ProcessorAction::Read)],
        me.cache.search(addr) is None,
        !me.cache.protocol.state(me.cache.evict_slot(addr)).is_owner(),
    ensures
        ({
            let r = me.stepped(bus, clk);
            let idle = CacheView { pending: Seq::empty(), ..me.cache };
            let loaded = idle.loaded(addr, bus);
            &&& r.2
            &&& r.1 == loaded.1
            &&& r.0.pos == me.pos
            &&& r.0.id == me.id
            &&& r.0.cache == if bus.task is None {
                loaded.0
            } else {
                me.cache
            }
            &&& idle.wf()
            &&& idle.has_room()
            &&& idle.search(addr) is None
            &&& !idle.protocol.state(idle.evict_slot(addr)).is_owner()
            &&& reader(r.0, addr, n, bound + 1)
        }),
{
    reveal(CoreView::stepped);
    let cache = me.cache;
    let idle = CacheView { pending: Seq::empty(), ..cache };
    let rest = CacheView { pending: cache.pending.skip(1), ..cache };
    assert(rest.pending =~= idle.pending);
    assert(rest == idle);
    idle.lemma_rescheduled(cache);
    assert(idle.keys() == cache.keys());
    lemma_misses(idle, addr, bus);
    me.lemma_stepped_wf(bus, clk);
    let stepped = me.stepped(bus, clk);
    if bus.task is Some {
        assert(stepped.0.cache.pending =~= cache.pending);
        assert(stepped.0.cache == cache);
    }
}

/// A cache that holds no block of `addr` neither snoops nor picks up anything of a
/// transaction for that address; and it settles nothing that is not its own.
pub proof fn lemma_stranger(cache: CacheView, bus: BusView, addr: u32)
    requires
        cache.wf(),
        cache.search(addr) is None,
        bus.task is Some,
        bus.task.unwrap().action.addr() == addr,
    ensures
        cache.snooped(bus) == (cache, bus),
        cache.snarfed(bus) == (cache, bus),
        bus.task.unwrap().issuer_id != cache.core_id ==> cache.settled(bus) == (cache, bus),
{
    cache.lemma_held(addr);
    cache.lemma_idle(bus);
    assert(cache.snooped(bus).0.protocol == cache.protocol);
    assert(cache.snarfed(bus).0.protocol == cache.protocol);
}

/// A cache settles its own read from memory, for which it holds the block exclusively,
/// by leaving the block and the bus as they are; it counts one access when the read has
/// no time left.
pub proof fn lemma_settles_alone(cache: CacheView, bus: BusView, addr: u32)
    requires
        cache.wf(),
        cache.has_room(),
        cache.held(addr) is Exclusive,
        bus.task is Some,
        bus.task.unwrap().issuer_id == cache.core_id,
        bus.task.unwrap().action == BusAction::BusRdMem(addr, cache.block_size),
    ensures
        cache.snooped(bus) == (cache, bus),
        cache.snarfed(bus) == (cache, bus),
        same_but_accesses(cache, cache.settled(bus).0, bus.task.unwrap().remaining_cycles == 0),
        cache.settled(bus).1 == bus,
        cache.settled(bus).0.held(addr) is Exclusive,
{
    cache.lemma_held(addr);
    cache.lemma_idle(bus);
    cache.lemma_settle_local(bus);
    cache.lemma_bus_steps_room(bus);
}

/// Whether `after` is `before` but for the states of its lines, and for one more
/// access to data where `counted` says so.
pub open spec fn same_but_accesses(before: CacheView, after: CacheView, counted: bool) -> bool {
    &&& after.wf()
    &&& after.core_id == before.core_id
    &&& after.tags == before.tags
    &&& after.lru == before.lru
    &&& after.layout == before.layout
    &&& after.block_size == before.block_size
    &&& after.pending == before.pending
    &&& after.write_missed == before.write_missed
    &&& after.protocol.kind() == before.protocol.kind()
    &&& after.stats.num_data_cache_hits == before.stats.num_data_cache_hits
    &&& after.stats.num_data_cache_misses == before.stats.num_data_cache_misses
    &&& after.stats.num_private_data_access + after.stats.num_shared_data_access
        == before.stats.num_private_data_access + before.stats.num_shared_data_access + if counted {
        1int
    } else {
        0int
    }
    &&& after.stats.num_private_data_access >= before.stats.num_private_data_access
    &&& after.stats.num_shared_data_access >= before.stats.num_shared_data_access
}

/// A cache settles its own read that another cache answered by holding the block
/// shared, whether it held it exclusively or shared before; the bus stays as it is,
/// and the cache counts one access when the read has no time left.
pub proof fn lemma_settles_shared(cache: CacheView, bus: BusView, addr: u32)
    requires
        cache.wf(),
        cache.has_room(),
        cache.held(addr) is Exclusive || cache.held(addr) is Shared,
        bus.task is Some,
        bus.task.unwrap().issuer_id == cache.core_id,
        bus.task.unwrap().action == BusAction::BusRdShared(addr, cache.block_size),
    ensures
        cache.snooped(bus) == (cache, bus),
        cache.snarfed(bus) == (cache, bus),
        same_but_accesses(cache, cache.settled(bus).0, bus.task.unwrap().remaining_cycles == 0),
        cache.settled(bus).1 == bus,
        cache.settled(bus).0.held(addr) is Shared,
{
    cache.lemma_held(addr);
    cache.lemma_idle(bus);
    cache.lemma_settle_local(bus);
    cache.lemma_bus_steps_room(bus);
}

/// A cache that holds the block shared leaves a shared read of another cache for it,
/// and itself, as they are, through snooping, picking up and settling.
pub proof fn lemma_sharer(cache: CacheView, bus: BusView, addr: u32)
    requires
        cache.wf(),
        cache.has_room(),
        cache.held(addr) is Shared,
        bus.task is Some,
        bus.task.unwrap().issuer_id != cache.core_id,
        bus.task.unwrap().action == BusAction::BusRdShared(addr, cache.block_size),
    ensures
        cache.snooped(bus) == (cache, bus),
        cache.snarfed(bus) == (cache, bus),
        cache.settled(bus) == (cache, bus),
{
    cache.lemma_held(addr);
    cache.lemma_idle(bus);
    let idx = cache.protocol.find(addr).unwrap();
    cache.protocol.lemma_snoop_shared(bus.task.unwrap(), idx);
    cache.protocol.lemma_snarf_same(bus.task.unwrap(), idx);
    assert(cache.snooped(bus).0.protocol == cache.protocol);
    assert(cache.snarfed(bus).0.protocol == cache.protocol);
}

/// Without a transaction on the bus the caches do nothing once the cores have stepped.
pub proof fn lemma_quiet(cache: CacheView, bus: BusView)
    requires
        cache.wf(),
        bus.task is None,
    ensures
        cache.snooped(bus) == (cache, bus),
        cache.snarfed(bus) == (cache, bus),
        cache.settled(bus) == (cache, bus),
{
    cache.lemma_idle(bus);
}

} // verus!
