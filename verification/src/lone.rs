use crate::bus::{BusAction, BusView, Task};
use crate::cache::CacheView;
use crate::cpu::CoreView;
use crate::geometry::valid_geometry;
use crate::protocol::{ProcessorAction, ProtocolKind};
use crate::record::{Label, Record};
use crate::system::{kept, stepped_all, swept, swept_all, Phase, SystemView};
use vstd::prelude::*;

verus! {

/// A trace of `n` loads of `addr`.
pub open spec fn loads(addr: u32, n: nat) -> Seq<Record> {
    Seq::new(n, |i: int| Record { label: Label::Load, value: addr })
}

/// What one cycle does to a system of one core that is active: the bus counts the
/// cycle, the core takes its step, and its cache snoops, picks up where that is on, and
/// settles; the core stays active unless its trace has run out.
pub proof fn lemma_lone_cycle(s: SystemView, order: Seq<usize>, seed: u64)
    requires
        s.cores.len() == 1,
        s.active == seq![0usize],
        order.to_multiset() == s.active.to_multiset(),
    ensures
        ({
            let clk = (s.clk + 1) as usize;
            let stepped = s.cores[0].stepped(s.bus.updated(), clk);
            let snooped = stepped.0.snooped(stepped.1);
            let snarfed = if s.read_broadcast {
                snooped.0.snarfed(snooped.1)
            } else {
                snooped
            };
            let settled = snarfed.0.settled(snarfed.1);
            let next = s.updated_by(order, seed).0;
            &&& next.cores.len() == 1
            &&& next.cores[0] == settled.0
            &&& next.bus == settled.1
            &&& next.clk == clk
            &&& next.read_broadcast == s.read_broadcast
            &&& next.active == if stepped.2 {
                seq![0usize]
            } else {
                Seq::<usize>::empty()
            }
        }),
{
    assert(order.to_multiset() == seq![0usize].to_multiset());
    vstd::seq_lib::to_multiset_len(order);
    vstd::seq_lib::to_multiset_len(seq![0usize]);
    assert(order.len() == 1);
    vstd::seq_lib::to_multiset_contains(order, order[0]);
    vstd::seq_lib::to_multiset_contains(seq![0usize], order[0]);
    assert(order.contains(order[0]));
    assert(seq![0usize].contains(order[0]));
    assert(order[0] == 0);
    assert(order =~= seq![0usize]);
    let clk = (s.clk + 1) as usize;
    let bus = s.bus.updated();
    reveal_with_fuel(stepped_all, 2);
    reveal_with_fuel(swept, 2);
    reveal_with_fuel(kept, 2);
    let all = stepped_all(s.cores, bus, order, clk, 1);
    let one = s.cores[0].stepped(bus, clk);
    assert(all.0 =~= s.cores.update(0, one.0));
    assert(all.1 == one.1);
    assert(all.2 =~= if one.2 {
        Seq::<usize>::empty()
    } else {
        seq![0usize]
    });
    let active = kept(order, all.2, 1);
    if one.2 {
        assert(!all.2.contains(0usize));
        assert(active =~= seq![0usize]);
    } else {
        assert(all.2[0] == 0usize);
        assert(all.2.contains(0usize));
        assert(active =~= Seq::<usize>::empty());
    }
    let snooped = swept(Phase::Snoop, all.0, all.1, 1);
    assert(snooped.0 =~= all.0.update(0, one.0.snooped(one.1).0));
    let snarfed = if s.read_broadcast {
        swept(Phase::Broadcast, snooped.0, snooped.1, 1)
    } else {
        snooped
    };
    if s.read_broadcast {
        assert(snarfed.0 =~= snooped.0.update(0, snooped.0[0].snarfed(snooped.1).0));
    }
    let settled = swept(Phase::Settle, snarfed.0, snarfed.1, 1);
    assert(settled.0 =~= snarfed.0.update(0, snarfed.0[0].settled(snarfed.1).0));
    assert(swept_all(all.0, all.1, s.read_broadcast) == settled);
}

/// A system of one core that loads one address over and over, after its first load
/// was put on the bus. While `waiting` is some number of cycles, the read is on the bus
/// with that many cycles to go, and nothing has hit. Afterwards the bus is free and
/// `hits` loads have hit. All along, the core has fetched the load that missed and
/// those that hit, its cache holds the block exclusively with nothing waiting, it has
/// counted one miss and `hits` hits, the bus has moved one block, and the clock shows
/// a cycle for the load that missed, one for each cycle of the read and one for each
/// hit.
#[verifier::opaque]
pub open spec fn lone(
    s: SystemView,
    block_size: usize,
    addr: u32,
    n: nat,
    hits: nat,
    waiting: Option<usize>,
) -> bool {
    let me = s.cores[0];
    &&& s.cores.len() == 1
    &&& s.active == seq![0usize]
    &&& me.wf()
    &&& me.id == 0
    &&& me.alu == 0
    &&& me.records == loads(addr, n)
    &&& me.pos == 1 + hits
    &&& me.pos <= n
    &&& me.cache.pending.len() == 0
    &&& me.cache.held(addr) is Exclusive
    &&& me.cache.stats.num_data_cache_misses == 1
    &&& me.cache.stats.num_data_cache_hits == hits
    &&& me.cache.stats.num_private_data_access + me.cache.stats.num_shared_data_access <= hits
        + if waiting is Some && waiting != Some(0usize) {
        0int
    } else {
        1int
    }
    &&& me.cache.lru.cnt <= hits + 2
    &&& me.stats.idle_cycles <= s.clk
    &&& me.stats.mem_ops <= me.pos
    &&& me.stats.num_instructions <= me.pos
    &&& me.stats.load_instructions <= me.pos
    &&& me.stats.store_instructions == 0
    &&& me.cache.block_size == block_size
    &&& s.bus.traffic == block_size
    &&& s.bus.num_invalid_or_upd == 0
    &&& match waiting {
        Some(left) => {
            &&& s.bus.task == Some(
                Task {
                    issuer_id: 0,
                    remaining_cycles: left,
                    action: BusAction::BusRdMem(addr, me.cache.block_size),
                },
            )
            &&& hits == 0
            &&& left <= 100
            &&& s.clk == 101 - left
        },
        None => s.bus.task is None && hits >= 1 && s.clk == 101 + hits,
    }
}

/// What holds of the system once the trace has run out: no core is active, one load
/// has missed and all others have hit, one block has moved over the bus, and the clock
/// shows a cycle for every load, the cycles of the one read, and the cycle at which the
/// core found its trace at an end.
pub open spec fn lone_done(s: SystemView, block_size: usize, n: nat) -> bool {
    &&& s.cores.len() == 1
    &&& s.active.len() == 0
    &&& s.cores[0].cache.stats.num_data_cache_misses == 1
    &&& s.cores[0].cache.stats.num_data_cache_hits == n - 1
    &&& s.bus.traffic == block_size
    &&& s.bus.num_invalid_or_upd == 0
    &&& s.clk == 101 + n
    &&& s.cores[0].stats.exec_cycles == 101 + n
}

/// The first cycle of a fresh system of one core with a trace of loads of one address:
/// the load misses and its read is on the bus.
pub proof fn lemma_lone_first(
    kind: ProtocolKind,
    cache_size: usize,
    associativity: usize,
    block_size: usize,
    addr: u32,
    n: nat,
    name: Seq<char>,
    read_broadcast: bool,
    order: Seq<usize>,
    seed: u64,
)
    requires
        valid_geometry(cache_size as nat, associativity as nat, block_size as nat),
        1 <= n,
        n + 103 <= usize::MAX,
        order.to_multiset() == seq![0usize].to_multiset(),
    ensures
        lone(
            SystemView::fresh(
                kind,
                cache_size,
                associativity,
                block_size,
                seq![(loads(addr, n), name)],
                read_broadcast,
            ).updated_by(order, seed).0,
            block_size,
            addr,
            n,
            0,
            Some(100usize),
        ),
{
    reveal(CoreView::stepped);
    reveal(lone);
    let s = SystemView::fresh(
        kind,
        cache_size,
        associativity,
        block_size,
        seq![(loads(addr, n), name)],
        read_broadcast,
    );
    assert(s.active =~= seq![0usize]);
    lemma_lone_cycle(s, order, seed);
    let me = s.cores[0];
    let cache = me.cache;
    CacheView::lemma_fresh(0, cache_size, associativity, block_size, kind);
    assert(me.wf());
    let bus = s.bus.updated();
    assert(bus.task is None);
    cache.lemma_set(addr);
    let record = Record { label: Label::Load, value: addr };
    assert(me.next() == Some(record));
    let fetched = me.fetched(record);
    assert(fetched.cache.pending =~= seq![(addr, ProcessorAction::Read)]);
    let rest = CacheView { pending: fetched.cache.pending.skip(1), ..fetched.cache };
    assert(rest.pending =~= cache.pending);
    assert(rest == cache);
    assert(cache.protocol.state(cache.evict_slot(addr)) is Invalid);
    cache.lemma_load_miss(addr, bus);
    cache.lemma_loaded(addr, bus);
    let loaded = cache.loaded(addr, bus);
    let stepped = me.stepped(bus, 1);
    assert(stepped.0.cache == loaded.0);
    assert(stepped.1 == loaded.1);
    me.lemma_stepped_wf(bus, 1);
    stepped.0.cache.lemma_idle(stepped.1);
    let snarfed = if read_broadcast {
        stepped.0.snooped(stepped.1).0.snarfed(stepped.1)
    } else {
        stepped.0.snooped(stepped.1)
    };
    assert(snarfed.0 == stepped.0 && snarfed.1 == stepped.1);
    lemma_lone_settle(stepped.0, stepped.1, addr);
}

/// While the read of its block is on the bus, settling leaves what the cache holds and
/// the bus as they are, and adds nothing to hits and misses.
pub proof fn lemma_lone_settle(me: CoreView, bus: BusView, addr: u32)
    requires
        me.wf(),
        me.id == 0,
        me.cache.has_room(),
        me.cache.held(addr) is Exclusive,
        bus.task is Some,
        bus.task.unwrap().issuer_id == 0,
        bus.task.unwrap().action == BusAction::BusRdMem(addr, me.cache.block_size),
    ensures
        me.settled(bus).0.wf(),
        me.settled(bus).1 == bus,
        me.settled(bus).0.cache.held(addr) is Exclusive,
        me.settled(bus).0.cache.pending == me.cache.pending,
        me.settled(bus).0.cache.lru == me.cache.lru,
        me.settled(bus).0.cache.block_size == me.cache.block_size,
        me.settled(bus).0.cache.stats.num_data_cache_misses == me.cache.stats.num_data_cache_misses,
        me.settled(bus).0.cache.stats.num_data_cache_hits == me.cache.stats.num_data_cache_hits,
        me.settled(bus).0.cache.stats.num_private_data_access
            + me.settled(bus).0.cache.stats.num_shared_data_access
            <= me.cache.stats.num_private_data_access + me.cache.stats.num_shared_data_access + 1,
        bus.task.unwrap().remaining_cycles != 0 ==> me.settled(bus).0.cache.stats
            == me.cache.stats,
        me.settled(bus).0 == me.with_cache(me.settled(bus).0.cache),
{
    me.cache.lemma_settle_local(bus);
    me.cache.lemma_bus_steps_room(bus);
    me.lemma_with_cache(me.cache.settled(bus).0);
}

/// A cycle of waiting: the read has one cycle less to go.
pub proof fn lemma_lone_wait(s: SystemView, block_size: usize, addr: u32, n: nat, left: usize, order: Seq<usize>, seed: u64)
    requires
        order.to_multiset() == s.active.to_multiset(),
        lone(s, block_size, addr, n, 0, Some(left)),
        left > 0,
        n + 103 <= usize::MAX,
    ensures
        lone(s.updated_by(order, seed).0, block_size, addr, n, 0, Some((left - 1) as usize)),
{
    reveal(CoreView::stepped);
    reveal(lone);
    lemma_lone_cycle(s, order, seed);
    let me = s.cores[0];
    let clk = (s.clk + 1) as usize;
    let bus = s.bus.updated();
    assert(me.cache.waits_for(bus));
    let stepped = me.stepped(bus, clk);
    assert(stepped.0.cache == me.cache && stepped.1 == bus);
    me.lemma_stepped_wf(bus, clk);
    me.cache.lemma_held(addr);
    stepped.0.cache.lemma_idle(stepped.1);
    lemma_lone_settle(stepped.0, stepped.1, addr);
}

/// A cycle in which the next load hits.
pub proof fn lemma_lone_hit(
    s: SystemView,
    block_size: usize,
    addr: u32,
    n: nat,
    hits: nat,
    waiting: Option<usize>,
    order: Seq<usize>,
    seed: u64,
)
    requires
        order.to_multiset() == s.active.to_multiset(),
        lone(s, block_size, addr, n, hits, waiting),
        waiting is Some ==> waiting == Some(0usize),
        1 + hits < n,
        n + 103 <= usize::MAX,
    ensures
        lone(s.updated_by(order, seed).0, block_size, addr, n, hits + 1, None),
{
    reveal(CoreView::stepped);
    reveal(lone);
    lemma_lone_cycle(s, order, seed);
    let me = s.cores[0];
    let cache = me.cache;
    let clk = (s.clk + 1) as usize;
    let bus = s.bus.updated();
    assert(bus.task is None);
    let record = Record { label: Label::Load, value: addr };
    assert(me.next() == Some(record));
    let fetched = me.fetched(record);
    assert(fetched.cache.pending =~= seq![(addr, ProcessorAction::Read)]);
    let rest = CacheView { pending: fetched.cache.pending.skip(1), ..fetched.cache };
    assert(rest.pending =~= cache.pending);
    assert(rest == cache);
    cache.lemma_held(addr);
    cache.lemma_load_hit(addr, bus);
    cache.lemma_loaded(addr, bus);
    let loaded = cache.loaded(addr, bus);
    let stepped = me.stepped(bus, clk);
    assert(stepped.0.cache == loaded.0);
    assert(stepped.1 == bus);
    me.lemma_stepped_wf(bus, clk);
    stepped.0.cache.lemma_idle(stepped.1);
}

/// The cycle in which the core finds its trace at an end.
pub proof fn lemma_lone_end(
    s: SystemView,
    block_size: usize,
    addr: u32,
    n: nat,
    hits: nat,
    waiting: Option<usize>,
    order: Seq<usize>,
    seed: u64,
)
    requires
        order.to_multiset() == s.active.to_multiset(),
        lone(s, block_size, addr, n, hits, waiting),
        waiting is Some ==> waiting == Some(0usize),
        1 + hits == n,
        n + 103 <= usize::MAX,
    ensures
        lone_done(s.updated_by(order, seed).0, block_size, n),
{
    reveal(CoreView::stepped);
    reveal(lone);
    lemma_lone_cycle(s, order, seed);
    let me = s.cores[0];
    let clk = (s.clk + 1) as usize;
    let bus = s.bus.updated();
    assert(bus.task is None);
    assert(me.next() is None);
    let stepped = me.stepped(bus, clk);
    assert(stepped.0.cache == me.cache);
    assert(stepped.1 == bus);
    me.lemma_stepped_wf(bus, clk);
    stepped.0.cache.lemma_idle(stepped.1);
}

/// The state of a run after `k` cycles, for `k` from 1 up to the cycle before the last.
pub proof fn lemma_lone_run(
    start: SystemView,
    block_size: usize,
    addr: u32,
    n: nat,
    turns: Seq<(Seq<usize>, u64)>,
    k: nat,
)
    requires
        lone(start.ran(turns.take(1)), block_size, addr, n, 0, Some(100usize)),
        start.permuted(turns),
        1 <= n,
        n + 103 <= usize::MAX,
        1 <= k <= 100 + n,
        k <= turns.len(),
    ensures
        if k <= 101 {
            lone(start.ran(turns.take(k as int)), block_size, addr, n, 0, Some((101 - k) as usize))
        } else {
            lone(start.ran(turns.take(k as int)), block_size, addr, n, (k - 101) as nat, None)
        },
    decreases k,
{
    if k > 1 {
        lemma_lone_run(start, block_size, addr, n, turns, (k - 1) as nat);
        let before = start.ran(turns.take(k - 1));
        start.lemma_ran(turns, k as int);
        let (order, seed) = turns[k - 1];
        assert(order.to_multiset() == before.active.to_multiset());
        if k <= 101 {
            lemma_lone_wait(before, block_size, addr, n, (102 - k) as usize, order, seed);
        } else if k == 102 {
            lemma_lone_hit(before, block_size, addr, n, 0, Some(0usize), order, seed);
        } else {
            lemma_lone_hit(before, block_size, addr, n, (k - 102) as nat, None, order, seed);
        }
    }
}

/// A lone core that loads one address `n` times sees one miss and `n - 1` hits; one
/// block moves over the bus and nothing is invalidated or updated; and the simulation
/// is over after a cycle for every load, the hundred cycles of the one read from
/// memory, and one cycle more, which is the cycle that the core notes as its last.
/// This holds whatever the address is, and in whatever order the shuffle lets the
/// active cores step, as long as it is a permutation of them.
pub proof fn lemma_lone_core_loads(
    kind: ProtocolKind,
    cache_size: usize,
    associativity: usize,
    block_size: usize,
    addr: u32,
    n: nat,
    name: Seq<char>,
    read_broadcast: bool,
    turns: Seq<(Seq<usize>, u64)>,
)
    requires
        valid_geometry(cache_size as nat, associativity as nat, block_size as nat),
        1 <= n,
        n + 103 <= usize::MAX,
        turns.len() == 101 + n,
        SystemView::fresh(
            kind,
            cache_size,
            associativity,
            block_size,
            seq![(loads(addr, n), name)],
            read_broadcast,
        ).permuted(turns),
    ensures
        ({
            let last = SystemView::fresh(
                kind,
                cache_size,
                associativity,
                block_size,
                seq![(loads(addr, n), name)],
                read_broadcast,
            ).ran(turns);
            &&& last.active.len() == 0
            &&& last.cores[0].cache.stats.num_data_cache_misses == 1
            &&& last.cores[0].cache.stats.num_data_cache_hits == n - 1
            &&& last.bus.traffic == block_size
            &&& last.bus.num_invalid_or_upd == 0
            &&& last.clk == 101 + n
            &&& last.cores[0].stats.exec_cycles == 101 + n
        }),
{
    let start = SystemView::fresh(
        kind,
        cache_size,
        associativity,
        block_size,
        seq![(loads(addr, n), name)],
        read_broadcast,
    );
    assert(start.active =~= seq![0usize]);
    start.lemma_ran_first(turns);
    lemma_lone_first(
        kind,
        cache_size,
        associativity,
        block_size,
        addr,
        n,
        name,
        read_broadcast,
        turns[0].0,
        turns[0].1,
    );
    lemma_lone_run(start, block_size, addr, n, turns, 100 + n);
    let before = start.ran(turns.take(100 + n as int));
    start.lemma_ran(turns, 101 + n as int);
    assert(turns.take(101 + n as int) =~= turns);
    let (order, seed) = turns[100 + n as int];
    assert(order.to_multiset() == before.active.to_multiset());
    if n == 1 {
        lemma_lone_end(before, block_size, addr, n, 0, Some(0usize), order, seed);
    } else {
        lemma_lone_end(before, block_size, addr, n, (n - 1) as nat, None, order, seed);
    }
}

} // verus!
