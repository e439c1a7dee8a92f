use crate::bus::{BusAction, BusView, Task};
use crate::cache::CacheView;
use crate::coherence::lemma_read_shares;
use crate::cpu::CoreView;
use crate::geometry::valid_geometry;
use crate::lone::loads;
use crate::protocol::{ProcessorAction, ProtocolKind};
use crate::reading::{
    lemma_quiet, lemma_reader_ends, lemma_reader_hits, lemma_reader_misses,
    lemma_reader_retries, lemma_reader_waits, lemma_settles_alone, lemma_settles_shared,
    lemma_sharer, lemma_stranger, reader, same_but_accesses,
};
use crate::record::Record;
use crate::system::{kept, names, stepped_all, swept, swept_all, Phase, SystemView};
use vstd::prelude::*;

verus! {

/// The cores of a system of two after those in `order` have stepped, one after the
/// other, the bus after that, and who of them is still active.
pub open spec fn duo_stepped(s: SystemView, order: Seq<usize>) -> (
    Seq<CoreView>,
    BusView,
    Seq<usize>,
) {
    let clk = (s.clk + 1) as usize;
    let bus = s.bus.updated();
    if order.len() == 0 {
        (s.cores, bus, Seq::empty())
    } else {
        let first = s.cores[order[0] as int].stepped(bus, clk);
        let cores = s.cores.update(order[0] as int, first.0);
        let active = if first.2 {
            seq![order[0]]
        } else {
            Seq::empty()
        };
        if order.len() == 1 {
            (cores, first.1, active)
        } else {
            let second = cores[order[1] as int].stepped(first.1, clk);
            (
                cores.update(order[1] as int, second.0),
                second.1,
                if second.2 {
                    active.push(order[1])
                } else {
                    active
                },
            )
        }
    }
}

/// The cores of a system of two and the bus after the caches have snooped, picked up
/// where that is on, and settled, each phase in the order of the cores.
pub open spec fn duo_swept(cores: Seq<CoreView>, bus: BusView, read_broadcast: bool) -> (
    Seq<CoreView>,
    BusView,
) {
    let a = cores[0].snooped(bus);
    let b = cores[1].snooped(a.1);
    let (c, d) = if read_broadcast {
        let c = a.0.snarfed(b.1);
        (c, b.0.snarfed(c.1))
    } else {
        (a, b)
    };
    let e = c.0.settled(d.1);
    let f = d.0.settled(e.1);
    (seq![e.0, f.0], f.1)
}

/// The steps of the cores of a system of two, unrolled.
#[verifier::rlimit(100)]
pub proof fn lemma_duo_stepped(s: SystemView, order: Seq<usize>)
    requires
        s.cores.len() == 2,
        names(order, 2),
    ensures
        order.len() <= 2,
        stepped_all(
            s.cores,
            s.bus.updated(),
            order,
            (s.clk + 1) as usize,
            order.len(),
        ).0 == duo_stepped(s, order).0,
        stepped_all(
            s.cores,
            s.bus.updated(),
            order,
            (s.clk + 1) as usize,
            order.len(),
        ).1 == duo_stepped(s, order).1,
        kept(
            order,
            stepped_all(s.cores, s.bus.updated(), order, (s.clk + 1) as usize, order.len()).2,
            order.len(),
        ) == duo_stepped(s, order).2,
{
    assert(order.len() <= 2) by {
        if order.len() > 2 {
            assert(order[0] != order[1] && order[0] != order[2] && order[1] != order[2]);
        }
    }
    let clk = (s.clk + 1) as usize;
    let bus = s.bus.updated();
    reveal_with_fuel(stepped_all, 3);
    reveal_with_fuel(kept, 3);
    let all = stepped_all(s.cores, bus, order, clk, order.len());
    let mine = duo_stepped(s, order);
    assert(all.0 =~= mine.0);
    assert(all.1 == mine.1);
    let active = kept(order, all.2, order.len());
    if order.len() == 1 {
        let first = s.cores[order[0] as int].stepped(bus, clk);
        if first.2 {
            assert(all.2 =~= Seq::<usize>::empty());
            assert(!all.2.contains(order[0]));
        } else {
            assert(all.2 =~= seq![order[0]]);
            assert(all.2[0] == order[0]);
            assert(all.2.contains(order[0]));
        }
        assert(active =~= mine.2);
    } else if order.len() == 2 {
        let first = s.cores[order[0] as int].stepped(bus, clk);
        let cores = s.cores.update(order[0] as int, first.0);
        let second = cores[order[1] as int].stepped(first.1, clk);
        assert(order[0] != order[1]);
        let dead = all.2;
        if first.2 && second.2 {
            assert(dead =~= Seq::<usize>::empty());
            assert(!dead.contains(order[0]) && !dead.contains(order[1]));
        } else if first.2 {
            assert(dead =~= seq![order[1]]);
            assert(dead[0] == order[1]);
            assert(dead.contains(order[1]) && !dead.contains(order[0]));
        } else if second.2 {
            assert(dead =~= seq![order[0]]);
            assert(dead[0] == order[0]);
            assert(dead.contains(order[0]) && !dead.contains(order[1]));
        } else {
            assert(dead =~= seq![order[0], order[1]]);
            assert(dead[0] == order[0] && dead[1] == order[1]);
            assert(dead.contains(order[0]) && dead.contains(order[1]));
        }
        assert(active =~= mine.2);
    } else {
        assert(active =~= mine.2);
    }
}

/// The phases that follow the steps in a system of two, unrolled.
#[verifier::rlimit(100)]
pub proof fn lemma_duo_swept(cores: Seq<CoreView>, bus: BusView, read_broadcast: bool)
    requires
        cores.len() == 2,
    ensures
        swept_all(cores, bus, read_broadcast) == duo_swept(cores, bus, read_broadcast),
{
    reveal_with_fuel(swept, 3);
    let snooped = swept(Phase::Snoop, cores, bus, 2);
    let a = cores[0].snooped(bus);
    let b = cores[1].snooped(a.1);
    assert(snooped.0 =~= seq![a.0, b.0]);
    assert(snooped.1 == b.1);
    let snarfed = if read_broadcast {
        swept(Phase::Broadcast, snooped.0, snooped.1, 2)
    } else {
        snooped
    };
    let (c, d) = if read_broadcast {
        let c = a.0.snarfed(b.1);
        (c, b.0.snarfed(c.1))
    } else {
        (a, b)
    };
    assert(snarfed.0 =~= seq![c.0, d.0]);
    assert(snarfed.1 == d.1);
    let settled = swept(Phase::Settle, snarfed.0, snarfed.1, 2);
    let e = c.0.settled(d.1);
    let f = d.0.settled(e.1);
    assert(settled.0 =~= seq![e.0, f.0]);
    assert(settled.1 == f.1);
}

/// A permutation of the active cores of a system of two names the cores that are
/// active, each once.
pub proof fn lemma_duo_order(active: Seq<usize>, order: Seq<usize>)
    requires
        names(active, 2),
        order.to_multiset() == active.to_multiset(),
    ensures
        names(order, 2),
        order.len() == active.len(),
        order.len() <= 2,
        forall|v: usize| order.contains(v) == active.contains(v),
{
    crate::system::lemma_shuffled_names(active, order, 2);
    assert forall|v: usize| order.contains(v) == active.contains(v) by {
        vstd::seq_lib::to_multiset_contains(order, v);
        vstd::seq_lib::to_multiset_contains(active, v);
    }
    vstd::seq_lib::to_multiset_len(order);
    vstd::seq_lib::to_multiset_len(active);
    if order.len() > 2 {
        assert(order[0] != order[1] && order[0] != order[2] && order[1] != order[2]);
    }
}

/// What one cycle does to a system of two cores.
pub proof fn lemma_duo_cycle(s: SystemView, order: Seq<usize>, seed: u64)
    requires
        s.cores.len() == 2,
        names(s.active, 2),
        order.to_multiset() == s.active.to_multiset(),
    ensures
        ({
            let stepped = duo_stepped(s, order);
            let swept = duo_swept(stepped.0, stepped.1, s.read_broadcast);
            let next = s.updated_by(order, seed).0;
            &&& names(order, 2)
            &&& order.len() == s.active.len()
            &&& order.len() <= 2
            &&& forall|v: usize| order.contains(v) == s.active.contains(v)
            &&& next.cores == swept.0
            &&& next.bus == swept.1
            &&& next.active == stepped.2
            &&& next.clk == (s.clk + 1) as usize
            &&& next.read_broadcast == s.read_broadcast
        }),
{
    lemma_duo_order(s.active, order);
    lemma_duo_stepped(s, order);
    let stepped = duo_stepped(s, order);
    assert(stepped.0.len() == 2);
    lemma_duo_swept(stepped.0, stepped.1, s.read_broadcast);
}

/// The steps of a cycle of a system of two in which no step changes the bus: each core
/// is as its own step on the bus of the cycle leaves it, in whatever order they step.
pub proof fn lemma_duo_stepped_quiet(s: SystemView, order: Seq<usize>)
    requires
        s.cores.len() == 2,
        names(order, 2),
        forall|i: int|
            0 <= i < 2 && order.contains(i as usize) ==> (#[trigger] s.cores[i]).stepped(
                s.bus.updated(),
                (s.clk + 1) as usize,
            ).1 == s.bus.updated(),
    ensures
        ({
            let bus = s.bus.updated();
            let clk = (s.clk + 1) as usize;
            let stepped = duo_stepped(s, order);
            &&& stepped.0.len() == 2
            &&& stepped.1 == bus
            &&& names(stepped.2, 2)
            &&& forall|i: int|
                0 <= i < 2 ==> (#[trigger] stepped.0[i]) == if order.contains(i as usize) {
                    s.cores[i].stepped(bus, clk).0
                } else {
                    s.cores[i]
                }
            &&& forall|i: int|
                0 <= i < 2 ==> #[trigger] stepped.2.contains(i as usize) == (order.contains(
                    i as usize,
                ) && s.cores[i].stepped(bus, clk).2)
        }),
{
    let bus = s.bus.updated();
    let clk = (s.clk + 1) as usize;
    let stepped = duo_stepped(s, order);
    assert(order.len() <= 2) by {
        if order.len() > 2 {
            assert(order[0] != order[1] && order[0] != order[2] && order[1] != order[2]);
        }
    }
    if order.len() >= 1 {
        assert(order.contains(order[0]));
        assert(s.cores[order[0] as int].stepped(bus, clk).1 == bus);
    }
    if order.len() == 2 {
        assert(order.contains(order[1]));
        assert(order[0] != order[1]);
        assert(s.cores[order[1] as int].stepped(bus, clk).1 == bus);
    }
    assert forall|i: int| 0 <= i < 2 implies (#[trigger] stepped.0[i]) == if order.contains(
        i as usize,
    ) {
        s.cores[i].stepped(bus, clk).0
    } else {
        s.cores[i]
    } by {
        if order.len() >= 1 && order[0] == i {
        } else if order.len() == 2 && order[1] == i {
        } else {
            assert(!order.contains(i as usize));
        }
    }
    assert forall|i: int| 0 <= i < 2 implies #[trigger] stepped.2.contains(i as usize) == (
    order.contains(i as usize) && s.cores[i].stepped(bus, clk).2) by {
        if order.len() >= 1 && order[0] == i {
            if s.cores[i].stepped(bus, clk).2 {
                assert(stepped.2[0] == i);
            }
        } else if order.len() == 2 && order[1] == i {
            if s.cores[i].stepped(bus, clk).2 {
                assert(stepped.2[stepped.2.len() - 1] == i);
            }
        } else {
            assert(!order.contains(i as usize));
        }
    }
    assert(names(stepped.2, 2)) by {
        assert forall|k: int| 0 <= k < stepped.2.len() implies #[trigger] stepped.2[k] < 2 by {}
    }
}

/// The steps of a cycle of a system of two in which both cores step: the first on the
/// bus of the cycle, the second on the bus as the first leaves it.
pub proof fn lemma_duo_stepped_pair(s: SystemView, order: Seq<usize>)
    requires
        s.cores.len() == 2,
        names(order, 2),
        order.len() == 2,
    ensures
        ({
            let bus = s.bus.updated();
            let clk = (s.clk + 1) as usize;
            let first = s.cores[order[0] as int].stepped(bus, clk);
            let second = s.cores[order[1] as int].stepped(first.1, clk);
            let stepped = duo_stepped(s, order);
            &&& order[0] != order[1]
            &&& stepped.0.len() == 2
            &&& stepped.0[order[0] as int] == first.0
            &&& stepped.0[order[1] as int] == second.0
            &&& stepped.1 == second.1
            &&& names(stepped.2, 2)
            &&& stepped.2.contains(order[0]) == first.2
            &&& stepped.2.contains(order[1]) == second.2
        }),
{
    let bus = s.bus.updated();
    let clk = (s.clk + 1) as usize;
    let first = s.cores[order[0] as int].stepped(bus, clk);
    let second = s.cores[order[1] as int].stepped(first.1, clk);
    let stepped = duo_stepped(s, order);
    assert(order[0] != order[1]);
    if first.2 {
        assert(stepped.2[0] == order[0]);
    }
    if second.2 {
        assert(stepped.2[stepped.2.len() - 1] == order[1]);
    }
    assert(names(stepped.2, 2)) by {
        assert forall|k: int| 0 <= k < stepped.2.len() implies #[trigger] stepped.2[k] < 2 by {}
    }
}

/// The number of loads that a reader has fetched after `c` cycles, where `start` is the
/// cycle in which it fetches its second load: one before that cycle, and one more with
/// every cycle from then on, up to the `n` loads of its trace.
pub open spec fn fetched_by(c: nat, start: nat, n: nat) -> nat {
    if c < start {
        1
    } else if c - start + 2 <= n {
        (c - start + 2) as nat
    } else {
        n
    }
}

/// The time that a read takes which a cache answers, for blocks of `block_size` bytes.
pub open spec fn answer_time(block_size: usize) -> nat {
    (2 * (block_size / 4)) as nat
}

/// A system of two cores that both load `addr` over and over, after `c` cycles, where
/// core `x` was the first to put its read on the bus.
///
/// For the first 101 cycles the read of `x` is on the bus; `x` holds the block
/// exclusively, while the load of the other core waits. In cycle 102 the other core
/// puts its read on the bus, `x` answers it, and from then on both hold the block
/// shared, each with one miss counted and a hit for every load but the first. The read
/// of the other core takes `answer_time` cycles; one block has moved over the bus
/// before cycle 102, two from then on. A core is active until the cycle in which it
/// finds its trace at an end.
pub open spec fn duo(
    s: SystemView,
    block_size: usize,
    addr: u32,
    traces: (nat, nat),
    x: int,
    c: nat,
) -> bool {
    duo_at(s.cores, s.active, s.bus, s.clk, block_size, addr, traces, x, c, true)
}

/// What `duo` says of a system, said of its cores, of those that are active, of its bus
/// and of its clock, at the end of cycle `c` or, where `settled` is false, in that cycle
/// once the cores have stepped and the bus has counted the cycle, but before the caches
/// have settled.
#[verifier::opaque]
pub open spec fn duo_at(
    cores: Seq<CoreView>,
    active: Seq<usize>,
    bus: BusView,
    clk: usize,
    block_size: usize,
    addr: u32,
    traces: (nat, nat),
    x: int,
    c: nat,
    settled: bool,
) -> bool {
    let y = 1 - x;
    let mine = cores[x];
    let other = cores[y];
    let n = if x == 0 {
        traces.0
    } else {
        traces.1
    };
    let m = if x == 0 {
        traces.1
    } else {
        traces.0
    };
    let wait = answer_time(block_size);
    &&& cores.len() == 2
    &&& (x == 0 || x == 1)
    &&& clk == c
    &&& c >= 1
    &&& reader(mine, addr, n, c + n + 3)
    &&& reader(other, addr, m, c + m + 3)
    &&& mine.id == x
    &&& other.id == y
    &&& mine.cache.block_size == block_size
    &&& other.cache.block_size == block_size
    &&& mine.cache.layout == other.cache.layout
    &&& mine.cache.pending.len() == 0
    &&& mine.cache.stats.num_data_cache_misses == 1
    &&& mine.pos == fetched_by(c, 102, n)
    &&& mine.cache.stats.num_data_cache_hits == mine.pos - 1
    &&& mine.cache.stats.num_private_data_access + mine.cache.stats.num_shared_data_access
        == mine.pos - 1 + if c > 101 || (c == 101 && settled) {
        1int
    } else {
        0int
    }
    &&& other.pos == fetched_by(c, 103 + wait, m)
    &&& other.cache.stats.num_data_cache_hits == other.pos - 1
    &&& other.cache.stats.num_private_data_access + other.cache.stats.num_shared_data_access
        == other.pos - 1 + if c > 102 + wait || (c == 102 + wait && settled) {
        1int
    } else {
        0int
    }
    &&& names(active, 2)
    &&& active.contains(x as usize) == (c < 101 + n)
    &&& active.contains(y as usize) == (c < 102 + wait + m)
    &&& bus.num_invalid_or_upd == 0
    &&& if c <= 101 {
        &&& mine.cache.held(addr) is Exclusive
        &&& other.cache.pending == seq![(addr, ProcessorAction::Read)]
        &&& other.cache.search(addr) is None
        &&& !other.cache.protocol.state(other.cache.evict_slot(addr)).is_owner()
        &&& other.cache.stats.num_data_cache_misses == 0
        &&& bus.traffic == block_size
        &&& bus.task == Some(
            Task {
                issuer_id: x as usize,
                remaining_cycles: (101 - c) as usize,
                action: BusAction::BusRdMem(addr, block_size),
            },
        )
    } else {
        &&& mine.cache.held(addr) is Shared
        &&& other.cache.held(addr) is Shared
        &&& other.cache.pending.len() == 0
        &&& other.cache.stats.num_data_cache_misses == 1
        &&& bus.traffic == 2 * block_size
        &&& if c <= 102 + wait {
            bus.task == Some(
                Task {
                    issuer_id: y as usize,
                    remaining_cycles: (102 + wait - c) as usize,
                    action: BusAction::BusRdShared(addr, block_size),
                },
            )
        } else {
            bus.task is None
        }
    }
}

/// Whether the sizes leave the counts room for the whole run.
pub open spec fn duo_fits(block_size: usize, traces: (nat, nat)) -> bool {
    &&& traces.0 >= 1
    &&& traces.1 >= 1
    &&& 2 * (traces.0 + traces.1) + answer_time(block_size) + 2 * block_size + 120 <= usize::MAX
}

/// The cycle after which no core is active.
pub open spec fn duo_end(block_size: usize, traces: (nat, nat), x: int) -> nat {
    let n = if x == 0 {
        traces.0
    } else {
        traces.1
    };
    let m = if x == 0 {
        traces.1
    } else {
        traces.0
    };
    if 101 + n >= 102 + answer_time(block_size) + m {
        101 + n
    } else {
        102 + answer_time(block_size) + m
    }
}

/// A cycle while the first read is on the bus: its issuer waits, and the load of the
/// other core is tried in vain.
#[verifier::rlimit(100)]
pub proof fn lemma_duo_waits(
    s: SystemView,
    block_size: usize,
    addr: u32,
    traces: (nat, nat),
    x: int,
    c: nat,
    order: Seq<usize>,
    seed: u64,
)
    requires
        order.to_multiset() == s.active.to_multiset(),
        duo(s, block_size, addr, traces, x, c),
        duo_fits(block_size, traces),
        c < 101,
    ensures
        duo(s.updated_by(order, seed).0, block_size, addr, traces, x, c + 1),
{
    reveal(duo_at);
    lemma_duo_cycle(s, order, seed);
    let y = 1 - x;
    let mine = s.cores[x];
    let other = s.cores[y];
    let n = if x == 0 {
        traces.0
    } else {
        traces.1
    };
    let m = if x == 0 {
        traces.1
    } else {
        traces.0
    };
    let clk = (s.clk + 1) as usize;
    let bus = s.bus.updated();
    assert(order.contains(x as usize) && order.contains(y as usize));
    assert(order.len() == 2) by {
        if order.len() == 1 {
            assert(order[0] == x && order[0] == y);
        }
    }
    lemma_reader_waits(mine, addr, n, c + n + 3, bus, clk);
    lemma_reader_retries(other, addr, m, c + m + 3, bus, clk);
    let stepped = duo_stepped(s, order);
    assert(stepped.1 == bus);
    assert(stepped.0[x] == mine.stepped(bus, clk).0);
    assert(stepped.0[y] == other.stepped(bus, clk).0);
    assert(stepped.2.contains(x as usize) && stepped.2.contains(y as usize)) by {
        assert(stepped.2 =~= order);
    }
    assert(stepped.2 =~= order);
    let me = stepped.0[x];
    let you = stepped.0[y];
    lemma_settles_alone(me.cache, bus, addr);
    lemma_stranger(you.cache, bus, addr);
    let after = duo_swept(stepped.0, bus, s.read_broadcast);
    assert(after.1 == bus);
    assert(after.0[y] == you);
    me.lemma_with_cache(me.cache.settled(bus).0);
    assert(after.0[x] == me.with_cache(me.cache.settled(bus).0));
}

/// The state in the cycle in which the second read goes on the bus, once the cores have
/// stepped: both hold the block exclusively, the one since its read, the other for the
/// read that it has just put on the bus.
#[verifier::opaque]
pub open spec fn duo_meets(
    cores: Seq<CoreView>,
    active: Seq<usize>,
    bus: BusView,
    clk: usize,
    block_size: usize,
    addr: u32,
    traces: (nat, nat),
    x: int,
) -> bool {
    let y = 1 - x;
    let mine = cores[x];
    let other = cores[y];
    let n = if x == 0 {
        traces.0
    } else {
        traces.1
    };
    let m = if x == 0 {
        traces.1
    } else {
        traces.0
    };
    &&& cores.len() == 2
    &&& (x == 0 || x == 1)
    &&& clk == 102
    &&& reader(mine, addr, n, 105 + n)
    &&& reader(other, addr, m, 105 + m)
    &&& mine.id == x
    &&& other.id == y
    &&& mine.cache.block_size == block_size
    &&& other.cache.block_size == block_size
    &&& mine.cache.layout == other.cache.layout
    &&& mine.cache.pending.len() == 0
    &&& other.cache.pending.len() == 0
    &&& mine.cache.held(addr) is Exclusive
    &&& other.cache.held(addr) is Exclusive
    &&& mine.cache.stats.num_data_cache_misses == 1
    &&& other.cache.stats.num_data_cache_misses == 1
    &&& mine.pos == fetched_by(102, 102, n)
    &&& mine.cache.stats.num_data_cache_hits == mine.pos - 1
    &&& mine.cache.stats.num_private_data_access + mine.cache.stats.num_shared_data_access
        == mine.pos
    &&& other.pos == 1
    &&& other.cache.stats.num_data_cache_hits == 0
    &&& other.cache.stats.num_private_data_access + other.cache.stats.num_shared_data_access == 0
    &&& names(active, 2)
    &&& active.contains(x as usize) == (102 < 101 + n)
    &&& active.contains(y as usize)
    &&& bus.num_invalid_or_upd == 0
    &&& bus.traffic == 2 * block_size
    &&& bus.task == Some(
        Task {
            issuer_id: y as usize,
            remaining_cycles: 100,
            action: BusAction::BusRdMem(addr, block_size),
        },
    )
}

/// The steps of the cycle in which the second read goes on the bus: the core that read
/// first hits or finds its trace at an end, and the other core misses at last.
#[verifier::rlimit(100)]
pub proof fn lemma_duo_shares_steps(
    s: SystemView,
    block_size: usize,
    addr: u32,
    traces: (nat, nat),
    x: int,
    order: Seq<usize>,
    seed: u64,
)
    requires
        order.to_multiset() == s.active.to_multiset(),
        duo(s, block_size, addr, traces, x, 101),
        duo_fits(block_size, traces),
    ensures
        ({
            let mid = duo_mid(s, order);
            duo_meets(mid.cores, mid.active, mid.bus, mid.clk, block_size, addr, traces, x)
        }),
{
    reveal(duo_at);
    reveal(duo_meets);
    lemma_duo_order(s.active, order);
    let c = 101nat;
    let y = 1 - x;
    let mine = s.cores[x];
    let other = s.cores[y];
    let n = if x == 0 {
        traces.0
    } else {
        traces.1
    };
    let m = if x == 0 {
        traces.1
    } else {
        traces.0
    };
    let clk = (s.clk + 1) as usize;
    let bus = s.bus.updated();
    assert(bus.task is None);
    assert(order.contains(x as usize) && order.contains(y as usize));
    assert(order.len() == 2) by {
        if order.len() == 1 {
            assert(order[0] == x && order[0] == y);
        }
    }
    lemma_duo_stepped_pair(s, order);
    let stepped = duo_stepped(s, order);
    let issued = bus.put_on(y as usize, BusAction::BusRdMem(addr, block_size));
    mine.cache.lemma_held(addr);
    lemma_reader_retries(other, addr, m, c + m + 3, bus, clk);
    let idle = CacheView { pending: Seq::empty(), ..other.cache };
    crate::reading::lemma_misses(idle, addr, bus);
    assert(order[0] == x || order[0] == y);
    if order[0] == x {
        assert(order[1] == y);
        if mine.pos < n {
            lemma_reader_hits(mine, addr, n, c + n + 3, bus, clk);
        } else {
            lemma_reader_ends(mine, addr, n, c + n + 3, bus, clk);
        }
    } else {
        assert(order[1] == x);
        let busy = other.stepped(bus, clk).1;
        if mine.pos < n {
            lemma_reader_hits(mine, addr, n, c + n + 3, busy, clk);
        } else {
            lemma_reader_ends(mine, addr, n, c + n + 3, busy, clk);
        }
    }
    assert(stepped.1 == issued);
}

/// The phases that follow the steps in the cycle in which the second read goes on the
/// bus: the core that read first answers the read, and both end the cycle holding the
/// block shared.
#[verifier::rlimit(100)]
pub proof fn lemma_duo_shares_sweeps(
    cores: Seq<CoreView>,
    active: Seq<usize>,
    bus: BusView,
    clk: usize,
    read_broadcast: bool,
    block_size: usize,
    addr: u32,
    traces: (nat, nat),
    x: int,
)
    requires
        duo_meets(cores, active, bus, clk, block_size, addr, traces, x),
        duo_fits(block_size, traces),
    ensures
        duo_at(
            duo_swept(cores, bus, read_broadcast).0,
            active,
            duo_swept(cores, bus, read_broadcast).1,
            clk,
            block_size,
            addr,
            traces,
            x,
            102,
            true,
        ),
{
    reveal(duo_at);
    reveal(duo_meets);
    let y = 1 - x;
    let me = cores[x];
    let you = cores[y];
    lemma_read_shares(me.cache, you.cache, bus, addr, block_size);
    me.cache.lemma_held(addr);
    let found = me.cache.protocol.find(addr).unwrap();
    me.cache.protocol.lemma_snoop_retimed(bus.task.unwrap(), found);
    me.cache.lemma_snoop_local(bus);
    me.cache.lemma_bus_steps_room(bus);
    me.cache.protocol.lemma_bus_steps(bus.task);
    you.cache.lemma_idle(bus);
    let answered = me.cache.snooped(bus);
    you.cache.lemma_idle(answered.1);
    let shared = answered.0;
    assert(shared.protocol.find(addr) == me.cache.protocol.find(addr)) by {
        shared.lemma_held(addr);
        let j = shared.protocol.find(addr).unwrap() as int;
        shared.protocol.lemma_found(addr);
        me.cache.lemma_tags_agree(j);
        assert(shared.protocol.keys()[j] == me.cache.protocol.keys()[j]);
        assert(me.cache.set_start(addr) <= j && me.cache.keys()[j] == Some(
            me.cache.layout.tag_of(addr),
        ));
    }
    shared.protocol.lemma_snarf_same(answered.1.task.unwrap(), found);
    shared.lemma_held(addr);
    assert(shared.snarfed(answered.1) == (shared, answered.1)) by {
        assert(shared.snarfed(answered.1).0.protocol == shared.protocol);
    }
    shared.lemma_idle(answered.1);
    lemma_settles_shared(you.cache, answered.1, addr);
    me.lemma_with_cache(shared);
    you.lemma_with_cache(you.cache.settled(answered.1).0);
    let after = duo_swept(cores, bus, read_broadcast);
    assert(after.1 == answered.1);
    assert(after.0[x] == me.with_cache(shared));
    assert(after.0[y] == you.with_cache(you.cache.settled(answered.1).0));
}

/// The cycle in which the second read goes on the bus.
pub proof fn lemma_duo_shares(
    s: SystemView,
    block_size: usize,
    addr: u32,
    traces: (nat, nat),
    x: int,
    order: Seq<usize>,
    seed: u64,
)
    requires
        order.to_multiset() == s.active.to_multiset(),
        duo(s, block_size, addr, traces, x, 101),
        duo_fits(block_size, traces),
    ensures
        duo(s.updated_by(order, seed).0, block_size, addr, traces, x, 102),
{
    assert(s.cores.len() == 2 && names(s.active, 2)) by {
        reveal(duo_at);
    }
    lemma_duo_cycle(s, order, seed);
    lemma_duo_shares_steps(s, block_size, addr, traces, x, order, seed);
    let mid = duo_mid(s, order);
    lemma_duo_shares_sweeps(
        mid.cores,
        mid.active,
        mid.bus,
        mid.clk,
        s.read_broadcast,
        block_size,
        addr,
        traces,
        x,
    );
}

/// The system after the steps of a cycle, before its caches snoop.
pub open spec fn duo_mid(s: SystemView, order: Seq<usize>) -> SystemView {
    let stepped = duo_stepped(s, order);
    SystemView { cores: stepped.0, active: stepped.2, bus: stepped.1, clk: (s.clk + 1) as usize, ..s }
}

/// The steps of a cycle after both cores have the block: each core that is active hits
/// or finds its trace at an end, but that the core that read second waits, untouched,
/// until its read is done.
#[verifier::rlimit(100)]
pub proof fn lemma_duo_reads_steps(
    s: SystemView,
    block_size: usize,
    addr: u32,
    traces: (nat, nat),
    x: int,
    c: nat,
    order: Seq<usize>,
    seed: u64,
)
    requires
        order.to_multiset() == s.active.to_multiset(),
        duo(s, block_size, addr, traces, x, c),
        duo_fits(block_size, traces),
        c >= 102,
        c < duo_end(block_size, traces, x),
    ensures
        ({
            let mid = duo_mid(s, order);
            &&& mid.cores.len() == 2
            &&& duo_at(
                mid.cores,
                mid.active,
                mid.bus,
                mid.clk,
                block_size,
                addr,
                traces,
                x,
                c + 1,
                false,
            )
        }),
{
    reveal(duo_at);
    lemma_duo_order(s.active, order);
    let y = 1 - x;
    let mine = s.cores[x];
    let other = s.cores[y];
    let n = if x == 0 {
        traces.0
    } else {
        traces.1
    };
    let m = if x == 0 {
        traces.1
    } else {
        traces.0
    };
    let wait = answer_time(block_size);
    let clk = (s.clk + 1) as usize;
    let bus = s.bus.updated();
    mine.cache.lemma_held(addr);
    other.cache.lemma_held(addr);
    // every step leaves the bus as it is
    if c < 101 + n {
        if mine.pos < n {
            lemma_reader_hits(mine, addr, n, c + n + 3, bus, clk);
        } else {
            lemma_reader_ends(mine, addr, n, c + n + 3, bus, clk);
        }
    }
    if c < 102 + wait + m {
        if c < 102 + wait {
            lemma_reader_waits(other, addr, m, c + m + 3, bus, clk);
        } else if other.pos < m {
            lemma_reader_hits(other, addr, m, c + m + 3, bus, clk);
        } else {
            lemma_reader_ends(other, addr, m, c + m + 3, bus, clk);
        }
    }
    assert(order.contains(x as usize) == (c < 101 + n));
    assert(order.contains(y as usize) == (c < 102 + wait + m));
    assert forall|i: int| 0 <= i < 2 && order.contains(i as usize) implies (
    #[trigger] s.cores[i]).stepped(bus, clk).1 == bus by {
        assert(i == x || i == y);
    }
    lemma_duo_stepped_quiet(s, order);
    let stepped = duo_stepped(s, order);
    assert(stepped.0[x] == if c < 101 + n {
        mine.stepped(bus, clk).0
    } else {
        mine
    });
    assert(stepped.0[y] == if c < 102 + wait + m {
        other.stepped(bus, clk).0
    } else {
        other
    });
    assert(stepped.2.contains(x as usize) == (c < 101 + n && mine.stepped(bus, clk).2));
    assert(stepped.2.contains(y as usize) == (c < 102 + wait + m && other.stepped(
        bus,
        clk,
    ).2));
}

/// The phases that follow the steps of a cycle after both cores have the block: the
/// core that read first leaves the read of the other as it is, and the core that read
/// second counts its access when its read has no time left.
#[verifier::rlimit(100)]
pub proof fn lemma_duo_reads_sweeps(
    cores: Seq<CoreView>,
    active: Seq<usize>,
    bus: BusView,
    clk: usize,
    read_broadcast: bool,
    block_size: usize,
    addr: u32,
    traces: (nat, nat),
    x: int,
    c: nat,
)
    requires
        duo_at(cores, active, bus, clk, block_size, addr, traces, x, c, false),
        duo_fits(block_size, traces),
        c >= 103,
        c <= duo_end(block_size, traces, x),
    ensures
        duo_at(
            duo_swept(cores, bus, read_broadcast).0,
            active,
            duo_swept(cores, bus, read_broadcast).1,
            clk,
            block_size,
            addr,
            traces,
            x,
            c,
            true,
        ),
{
    reveal(duo_at);
    let y = 1 - x;
    let me = cores[x];
    let you = cores[y];
    me.cache.lemma_held(addr);
    you.cache.lemma_held(addr);
    if bus.task is Some {
        lemma_sharer(me.cache, bus, addr);
        lemma_settles_shared(you.cache, bus, addr);
        you.lemma_with_cache(you.cache.settled(bus).0);
        let after = duo_swept(cores, bus, read_broadcast);
        assert(after.1 == bus);
        assert(after.0[x] == me);
        assert(after.0[y] == you.with_cache(you.cache.settled(bus).0));
    } else {
        lemma_quiet(me.cache, bus);
        lemma_quiet(you.cache, bus);
        let after = duo_swept(cores, bus, read_broadcast);
        assert(after.1 == bus);
        assert(after.0[x] == me);
        assert(after.0[y] == you);
    }
}

/// A cycle after both cores have the block.
pub proof fn lemma_duo_reads(
    s: SystemView,
    block_size: usize,
    addr: u32,
    traces: (nat, nat),
    x: int,
    c: nat,
    order: Seq<usize>,
    seed: u64,
)
    requires
        order.to_multiset() == s.active.to_multiset(),
        duo(s, block_size, addr, traces, x, c),
        duo_fits(block_size, traces),
        c >= 102,
        c < duo_end(block_size, traces, x),
    ensures
        duo(s.updated_by(order, seed).0, block_size, addr, traces, x, c + 1),
{
    assert(s.cores.len() == 2 && names(s.active, 2)) by {
        reveal(duo_at);
    }
    lemma_duo_cycle(s, order, seed);
    lemma_duo_reads_steps(s, block_size, addr, traces, x, c, order, seed);
    let mid = duo_mid(s, order);
    lemma_duo_reads_sweeps(
        mid.cores,
        mid.active,
        mid.bus,
        mid.clk,
        s.read_broadcast,
        block_size,
        addr,
        traces,
        x,
        c + 1,
    );
}

/// The run of a system of two cores that both load one address: the state after `k`
/// cycles, where the core that put its read on the bus in the first cycle is `x`.
pub proof fn lemma_duo_run(
    start: SystemView,
    block_size: usize,
    addr: u32,
    traces: (nat, nat),
    x: int,
    turns: Seq<(Seq<usize>, u64)>,
    k: nat,
)
    requires
        duo(start.ran(turns.take(1)), block_size, addr, traces, x, 1),
        start.permuted(turns),
        duo_fits(block_size, traces),
        1 <= k <= duo_end(block_size, traces, x),
        k <= turns.len(),
    ensures
        duo(start.ran(turns.take(k as int)), block_size, addr, traces, x, k),
    decreases k,
{
    if k > 1 {
        lemma_duo_run(start, block_size, addr, traces, x, turns, (k - 1) as nat);
        let before = start.ran(turns.take(k - 1));
        start.lemma_ran(turns, k as int);
        let (order, seed) = turns[k - 1];
        assert(order.to_multiset() == before.active.to_multiset());
        if k <= 101 {
            lemma_duo_waits(before, block_size, addr, traces, x, (k - 1) as nat, order, seed);
        } else if k == 102 {
            lemma_duo_shares(before, block_size, addr, traces, x, order, seed);
        } else {
            lemma_duo_reads(before, block_size, addr, traces, x, (k - 1) as nat, order, seed);
        }
    }
}

/// What holds of the system once both traces have run out: no core is active, each
/// cache has counted one miss and a hit for every other load of its core, both hold the
/// block shared, and two blocks have moved over the bus.
pub proof fn lemma_duo_done(
    s: SystemView,
    block_size: usize,
    addr: u32,
    traces: (nat, nat),
    x: int,
)
    requires
        duo(s, block_size, addr, traces, x, duo_end(block_size, traces, x)),
        duo_fits(block_size, traces),
    ensures
        s.active.len() == 0,
        s.cores.len() == 2,
        s.cores[0].cache.stats.num_data_cache_misses == 1,
        s.cores[1].cache.stats.num_data_cache_misses == 1,
        s.cores[0].cache.stats.num_data_cache_hits == traces.0 - 1,
        s.cores[1].cache.stats.num_data_cache_hits == traces.1 - 1,
        s.cores[0].cache.held(addr) is Shared,
        s.cores[1].cache.held(addr) is Shared,
        s.bus.traffic == 2 * block_size,
        s.bus.num_invalid_or_upd == 0,
{
    reveal(duo_at);
    if s.active.len() > 0 {
        assert(s.active.contains(s.active[0]));
        assert(s.active[0] == x || s.active[0] == 1 - x);
    }
}

/// The first cycle of a fresh system of two cores that both load one address: one of
/// them puts its read on the bus, and the load of the other waits.
#[verifier::rlimit(100)]
pub proof fn lemma_duo_first(
    kind: ProtocolKind,
    cache_size: usize,
    associativity: usize,
    block_size: usize,
    addr: u32,
    traces: (nat, nat),
    names_of: (Seq<char>, Seq<char>),
    read_broadcast: bool,
    order: Seq<usize>,
    seed: u64,
)
    requires
        valid_geometry(cache_size as nat, associativity as nat, block_size as nat),
        duo_fits(block_size, traces),
        order.to_multiset() == seq![0usize, 1usize].to_multiset(),
    ensures
        ({
            let start = duo_fresh(
                kind,
                cache_size,
                associativity,
                block_size,
                addr,
                traces,
                names_of,
                read_broadcast,
            );
            duo(start.updated_by(order, seed).0, block_size, addr, traces, order[0] as int, 1)
        }),
{
    reveal(duo_at);
    let start = duo_fresh(
        kind,
        cache_size,
        associativity,
        block_size,
        addr,
        traces,
        names_of,
        read_broadcast,
    );
    assert(start.active =~= seq![0usize, 1usize]);
    assert(names(start.active, 2));
    lemma_duo_cycle(start, order, seed);
    let x = order[0] as int;
    let y = 1 - x;
    assert(order.contains(0usize) && order.contains(1usize)) by {
        assert(start.active[0] == 0 && start.active[1] == 1);
        assert(start.active.contains(0usize) && start.active.contains(1usize));
    }
    assert(order[1] == y) by {
        assert(order[0] != order[1]);
    }
    let n = if x == 0 {
        traces.0
    } else {
        traces.1
    };
    let m = if x == 0 {
        traces.1
    } else {
        traces.0
    };
    let mine = start.cores[x];
    let other = start.cores[y];
    CacheView::lemma_fresh(x as usize, cache_size, associativity, block_size, kind);
    CacheView::lemma_fresh(y as usize, cache_size, associativity, block_size, kind);
    assert(mine.wf() && other.wf());
    mine.cache.lemma_set(addr);
    other.cache.lemma_set(addr);
    assert(mine.cache.protocol.state(mine.cache.evict_slot(addr)) is Invalid);
    assert(other.cache.protocol.state(other.cache.evict_slot(addr)) is Invalid);
    let bus = start.bus.updated();
    assert(bus.task is None);
    assert(reader(mine, addr, n, n + 3));
    assert(reader(other, addr, m, m + 3));
    lemma_reader_misses(mine, addr, n, n + 3, bus, 1);
    crate::reading::lemma_misses(mine.cache, addr, bus);
    let issued = mine.stepped(bus, 1).1;
    lemma_reader_misses(other, addr, m, m + 3, issued, 1);
    let stepped = duo_stepped(start, order);
    assert(stepped.1 == issued);
    let me = stepped.0[x];
    let you = stepped.0[y];
    assert(me == mine.stepped(bus, 1).0);
    assert(you == other.stepped(issued, 1).0);
    assert(stepped.2 =~= order);
    assert(you.cache.keys() == other.cache.keys());
    assert(you.cache.pending =~= seq![(addr, ProcessorAction::Read)]);
    lemma_settles_alone(me.cache, issued, addr);
    lemma_stranger(you.cache, issued, addr);
    me.lemma_with_cache(me.cache.settled(issued).0);
    let after = duo_swept(stepped.0, issued, read_broadcast);
    assert(after.1 == issued);
    assert(after.0[y] == you);
    assert(after.0[x] == me.with_cache(me.cache.settled(issued).0));
}

/// A fresh system of two cores that load `addr`, the one `traces.0` times and the other
/// `traces.1` times.
pub open spec fn duo_fresh(
    kind: ProtocolKind,
    cache_size: usize,
    associativity: usize,
    block_size: usize,
    addr: u32,
    traces: (nat, nat),
    names_of: (Seq<char>, Seq<char>),
    read_broadcast: bool,
) -> SystemView {
    SystemView::fresh(
        kind,
        cache_size,
        associativity,
        block_size,
        seq![(loads(addr, traces.0), names_of.0), (loads(addr, traces.1), names_of.1)],
        read_broadcast,
    )
}

/// In a fresh system of two cores both are active, in the order of their numbers.
pub proof fn lemma_duo_fresh(
    kind: ProtocolKind,
    cache_size: usize,
    associativity: usize,
    block_size: usize,
    addr: u32,
    traces: (nat, nat),
    names_of: (Seq<char>, Seq<char>),
    read_broadcast: bool,
)
    ensures
        duo_fresh(
            kind,
            cache_size,
            associativity,
            block_size,
            addr,
            traces,
            names_of,
            read_broadcast,
        ).active == seq![0usize, 1usize],
{
    let start = duo_fresh(
        kind,
        cache_size,
        associativity,
        block_size,
        addr,
        traces,
        names_of,
        read_broadcast,
    );
    assert(start.active =~= seq![0usize, 1usize]);
}

/// Two cores that load one address over and over each miss once and hit ever after,
/// and end up holding the block shared, after two blocks have moved over the bus, one
/// from memory and one from the cache of the core that read first, and nothing was
/// invalidated or updated. This holds whatever the address is, and in whatever order
/// the shuffle lets the active cores step, as long as it is a permutation of them; the
/// core that steps first in the first cycle is the one that reads first.
pub proof fn lemma_two_cores_read(
    kind: ProtocolKind,
    cache_size: usize,
    associativity: usize,
    block_size: usize,
    addr: u32,
    traces: (nat, nat),
    names_of: (Seq<char>, Seq<char>),
    read_broadcast: bool,
    turns: Seq<(Seq<usize>, u64)>,
)
    requires
        valid_geometry(cache_size as nat, associativity as nat, block_size as nat),
        duo_fits(block_size, traces),
        turns.len() >= 1,
        turns.len() == duo_end(block_size, traces, turns[0].0[0] as int),
        duo_fresh(
            kind,
            cache_size,
            associativity,
            block_size,
            addr,
            traces,
            names_of,
            read_broadcast,
        ).permuted(turns),
    ensures
        ({
            let last = duo_fresh(
                kind,
                cache_size,
                associativity,
                block_size,
                addr,
                traces,
                names_of,
                read_broadcast,
            ).ran(turns);
            &&& last.active.len() == 0
            &&& last.cores.len() == 2
            &&& last.cores[0].cache.stats.num_data_cache_misses == 1
            &&& last.cores[1].cache.stats.num_data_cache_misses == 1
            &&& last.cores[0].cache.stats.num_data_cache_hits == traces.0 - 1
            &&& last.cores[1].cache.stats.num_data_cache_hits == traces.1 - 1
            &&& last.cores[0].cache.held(addr) is Shared
            &&& last.cores[1].cache.held(addr) is Shared
            &&& last.bus.traffic == 2 * block_size
            &&& last.bus.num_invalid_or_upd == 0
        }),
{
    let start = duo_fresh(
        kind,
        cache_size,
        associativity,
        block_size,
        addr,
        traces,
        names_of,
        read_broadcast,
    );
    let x = turns[0].0[0] as int;
    lemma_duo_fresh(
        kind,
        cache_size,
        associativity,
        block_size,
        addr,
        traces,
        names_of,
        read_broadcast,
    );
    start.lemma_ran_first(turns);
    assert(turns[0].0.to_multiset() == start.active.to_multiset());
    lemma_duo_first(
        kind,
        cache_size,
        associativity,
        block_size,
        addr,
        traces,
        names_of,
        read_broadcast,
        turns[0].0,
        turns[0].1,
    );
    let end = duo_end(block_size, traces, x);
    lemma_duo_run(start, block_size, addr, traces, x, turns, end);
    lemma_duo_done(start.ran(turns.take(end as int)), block_size, addr, traces, x);
    assert(turns.take(end as int) =~= turns);
}

} // verus!
