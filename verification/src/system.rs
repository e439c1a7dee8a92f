use crate::bus::{Bus, BusView};
use crate::cache::{CacheView};
use crate::coherence::{
    alike, coherent, compatible, lemma_next_cycle, lemma_settle_orderly, lemma_settled_coherent,
    lemma_snarf_orderly, lemma_snoop_orderly, lemma_start_snoop, lemma_step_orderly, orderly,
    pair_ok, settling, with_cache,
};
use crate::cpu::{Core, CoreView};
use crate::geometry::{valid_geometry, WORD_SIZE};
use crate::protocol::{ProtocolKind, Stage};
use crate::record::{Record, RecordStream};
use rand::rngs::mock::StepRng;
use rand::seq::SliceRandom;
use rand::RngCore;
use vstd::prelude::*;

verus! {

/// Optional features of the simulation.
#[derive(Debug, Default, Clone, Copy)]
pub struct Optimizations {
    pub read_broadcast: bool,
}

/// The order that a shuffle gives to `order`, and the state in which it leaves the
/// generator, where the generator counts up from `seed` in steps of `increment`.
pub uninterp spec fn shuffled(order: Seq<usize>, seed: u64, increment: u64) -> (Seq<usize>, u64);

/// Shuffles `order` with `rand`'s `SliceRandom::shuffle`, drawing from a
/// `rand::rngs::mock::StepRng` that is made with `StepRng::new(seed, increment)`, and
/// returns what the generator would yield next: the state in which the shuffle left it.
/// The claim is that the shuffle permutes the slice, and that slice and state depend on
/// nothing but the three arguments. The increment is asked to be odd: the generator
/// then runs through all numbers, so that the shuffle, which draws until a number is
/// acceptable, comes to an end.
#[verifier::external_body]
fn shuffle(order: &mut Vec<usize>, seed: u64, increment: u64) -> (next: u64)
    requires
        increment % 2 == 1,
    ensures
        (final(order)@, next) == shuffled(old(order)@, seed, increment),
        final(order)@.to_multiset() == old(order)@.to_multiset(),
{
    let mut rng = StepRng::new(seed, increment);
    order.shuffle(&mut rng);
    rng.next_u64()
}

/// The cache of every core.
pub open spec fn caches_of(cores: Seq<CoreView>) -> Seq<CacheView> {
    Seq::new(cores.len(), |i: int| cores[i].cache)
}

/// What the caches do once all cores have taken their steps, core by core.
pub enum Phase {
    Snoop,
    Broadcast,
    Settle,
}

/// What the turn of a core in a phase does to the core and the bus.
pub open spec fn turn(core: CoreView, phase: Phase, bus: BusView) -> (CoreView, BusView) {
    match phase {
        Phase::Snoop => core.snooped(bus),
        Phase::Broadcast => core.snarfed(bus),
        Phase::Settle => core.settled(bus),
    }
}

/// The cores and the bus after the first `k` cores have had their turn in a phase.
pub open spec fn swept(phase: Phase, cores: Seq<CoreView>, bus: BusView, k: nat) -> (
    Seq<CoreView>,
    BusView,
)
    decreases k,
{
    if k == 0 {
        (cores, bus)
    } else {
        let (c, b) = swept(phase, cores, bus, (k - 1) as nat);
        let r = turn(c[k - 1], phase, b);
        (c.update(k - 1, r.0), r.1)
    }
}

/// The cores and the bus after the first `k` cores of `order` have taken their steps,
/// and those among them whose traces had run out.
pub open spec fn stepped_all(
    cores: Seq<CoreView>,
    bus: BusView,
    order: Seq<usize>,
    clk: usize,
    k: nat,
) -> (Seq<CoreView>, BusView, Seq<usize>)
    decreases k,
{
    if k == 0 {
        (cores, bus, Seq::empty())
    } else {
        let (c, b, dead) = stepped_all(cores, bus, order, clk, (k - 1) as nat);
        let id = order[k - 1];
        let r = c[id as int].stepped(b, clk);
        (
            c.update(id as int, r.0),
            r.1,
            if r.2 {
                dead
            } else {
                dead.push(id)
            },
        )
    }
}

/// Those of the first `k` of `order` that are not among `dead`, in their order.
pub open spec fn kept(order: Seq<usize>, dead: Seq<usize>, k: nat) -> Seq<usize>
    decreases k,
{
    if k == 0 {
        Seq::empty()
    } else {
        let rest = kept(order, dead, (k - 1) as nat);
        if dead.contains(order[k - 1]) {
            rest
        } else {
            rest.push(order[k - 1])
        }
    }
}

/// The cores are well formed and numbered in order.
pub open spec fn numbered(cores: Seq<CoreView>) -> bool {
    forall|i: int| 0 <= i < cores.len() ==> (#[trigger] cores[i]).wf() && cores[i].id == i
}

/// No core names a cycle of its end that lies after cycle `clk`.
pub open spec fn ended_by(cores: Seq<CoreView>, clk: usize) -> bool {
    forall|i: int| 0 <= i < cores.len() ==> (#[trigger] cores[i]).stats.exec_cycles <= clk
}

/// No count of any core in `later` is below that in `earlier`.
pub open spec fn rises(earlier: Seq<CoreView>, later: Seq<CoreView>) -> bool {
    &&& later.len() == earlier.len()
    &&& forall|i: int|
        0 <= i < earlier.len() ==> {
            &&& (#[trigger] later[i]).stats.no_less_than(earlier[i].stats)
            &&& later[i].cache.stats.no_less_than(earlier[i].cache.stats)
            &&& later[i].stats.file_name == earlier[i].stats.file_name
            &&& later[i].cache.protocol.kind() == earlier[i].cache.protocol.kind()
        }
}

/// The order names cores, and no core twice.
pub open spec fn names(order: Seq<usize>, n: nat) -> bool {
    &&& order.no_duplicates()
    &&& forall|k: int| 0 <= k < order.len() ==> #[trigger] order[k] < n
}

/// Whether the totals of the bus have room for one transaction of the caches.
pub open spec fn bus_spare(cores: Seq<CoreView>, bus: BusView) -> bool {
    forall|i: int|
        0 <= i < cores.len() ==> bus.has_room((#[trigger] cores[i]).cache.block_size)
            && bus.has_room(WORD_SIZE)
}

/// What holds while the cores take their steps, of which the first `k` of `order` have
/// taken theirs: the cores are well formed; those that have not stepped are as they
/// were, and those that have still have room in the counts of their caches; the caches
/// and the bus are orderly; the bus is as it was or holds a transaction; and no count
/// has fallen.
pub open spec fn stepping(
    cores: Seq<CoreView>,
    bus: BusView,
    order: Seq<usize>,
    k: int,
    start: Seq<CoreView>,
    first: BusView,
) -> bool {
    &&& cores.len() == start.len()
    &&& numbered(cores)
    &&& orderly(caches_of(cores), bus, 0, Stage::Stepping)
    &&& forall|i: int| 0 <= i < cores.len() ==> (#[trigger] cores[i]).cache.has_room()
    &&& forall|j: int| k <= j < order.len() ==> cores[#[trigger] order[j] as int] == start[order[j] as int]
    &&& bus == first || bus.task is Some
    &&& bus.traffic >= first.traffic
    &&& bus.num_invalid_or_upd >= first.num_invalid_or_upd
    &&& rises(start, cores)
}

/// Replacing the cache of a core replaces it among the caches.
pub proof fn lemma_caches_of(cores: Seq<CoreView>, c: int, core: CoreView)
    requires
        0 <= c < cores.len(),
    ensures
        caches_of(cores.update(c, core)) == with_cache(caches_of(cores), c, core.cache),
{
    assert(caches_of(cores.update(c, core)) =~= with_cache(caches_of(cores), c, core.cache));
}

/// The steps of the cores keep to `stepping`.
pub proof fn lemma_stepped_all(
    cores: Seq<CoreView>,
    bus: BusView,
    order: Seq<usize>,
    clk: usize,
    k: nat,
)
    requires
        numbered(cores),
        orderly(caches_of(cores), bus, 0, Stage::Stepping),
        forall|i: int| 0 <= i < cores.len() ==> (#[trigger] cores[i]).spare(),
        bus_spare(cores, bus),
        names(order, cores.len()),
        ended_by(cores, clk),
        k <= order.len(),
    ensures
        ended_by(stepped_all(cores, bus, order, clk, k).0, clk),
        stepping(
            stepped_all(cores, bus, order, clk, k).0,
            stepped_all(cores, bus, order, clk, k).1,
            order,
            k as int,
            cores,
            bus,
        ),
        forall|x: usize|
            stepped_all(cores, bus, order, clk, k).2.contains(x) ==> order.contains(x),
    decreases k,
{
    if k > 0 {
        lemma_stepped_all(cores, bus, order, clk, (k - 1) as nat);
        let (c, b, dead) = stepped_all(cores, bus, order, clk, (k - 1) as nat);
        let id = order[k - 1] as int;
        let me = c[id];
        let r = me.stepped(b, clk);
        let next = c.update(id, r.0);
        assert(me == cores[id]);
        assert(me.wf() && me.spare());
        assert(me.stats.exec_cycles <= clk);
        assert(alike(caches_of(c)));
        assert(caches_of(c)[id] == me.cache);
        assert(caches_of(c)[0].wf() && caches_of(cores)[0] == cores[0].cache);
        assert(me.cache.bus_has_room(b)) by {
            if b == bus {
                assert(bus.has_room(cores[id].cache.block_size));
            }
        }
        me.lemma_stepped(b, clk);
        me.lemma_stepped_issues(b, clk);
        lemma_step_orderly(caches_of(c), b, id, r.0.cache, r.1);
        lemma_caches_of(c, id, r.0);
        assert forall|j: int| k <= j < order.len() implies next[#[trigger] order[j] as int]
            == cores[order[j] as int] by {
            assert(order[j] != order[k - 1]);
        }
        assert forall|x: usize| stepped_all(cores, bus, order, clk, k).2.contains(x) implies order.contains(x) by {
            if !dead.contains(x) {
                assert(x == order[k - 1]);
            }
        }
    }
}

/// What holds while the caches take their turns in a phase, of which the first `k`
/// have taken theirs. The cores are well formed, their caches have room in their
/// counts unless they have settled, no count has fallen since the phase began, the
/// totals of the bus are as they were, and the caches and the bus are orderly for the
/// phase.
pub open spec fn sweeping(
    phase: Phase,
    cores: Seq<CoreView>,
    bus: BusView,
    k: int,
    start: Seq<CoreView>,
    first: BusView,
) -> bool {
    &&& numbered(cores)
    &&& rises(start, cores)
    &&& forall|i: int| 0 <= i < cores.len() ==> (#[trigger] cores[i]).stats == start[i].stats
    &&& bus == first.with_task(bus.task)
    &&& match phase {
        Phase::Snoop => orderly(caches_of(cores), bus, k, Stage::Snooped) && forall|i: int|
            0 <= i < cores.len() ==> (#[trigger] cores[i]).cache.has_room(),
        Phase::Broadcast => orderly(caches_of(cores), bus, cores.len() as int, Stage::Snooped)
            && (forall|i: int| 0 <= i < cores.len() ==> (#[trigger] cores[i]).cache.has_room())
            && (forall|i: int| 0 <= i < cores.len() ==> (#[trigger] cores[i]).cache.protocol is Mesi),
        Phase::Settle => orderly(caches_of(cores), bus, cores.len() as int, settling(bus, k))
            && forall|i: int| k <= i < cores.len() ==> (#[trigger] cores[i]).cache.has_room(),
    }
}

/// The turns of the caches in a phase keep to `sweeping`.
pub proof fn lemma_swept(phase: Phase, cores: Seq<CoreView>, bus: BusView, k: nat)
    requires
        sweeping(phase, cores, bus, 0, cores, bus),
        k <= cores.len(),
    ensures
        swept(phase, cores, bus, k).0.len() == cores.len(),
        sweeping(
            phase,
            swept(phase, cores, bus, k).0,
            swept(phase, cores, bus, k).1,
            k as int,
            cores,
            bus,
        ),
    decreases k,
{
    if k > 0 {
        lemma_swept(phase, cores, bus, (k - 1) as nat);
        let (c, b) = swept(phase, cores, bus, (k - 1) as nat);
        let me = c[k - 1];
        let r = turn(me, phase, b);
        let caches = caches_of(c);
        assert(me.wf());
        assert(caches[k - 1] == me.cache);
        me.cache.lemma_bus_steps_room(b);
        lemma_caches_of(c, k - 1, r.0);
        match phase {
            Phase::Snoop => {
                lemma_snoop_orderly(caches, b, k - 1);
                me.cache.lemma_bus_steps(b);
            },
            Phase::Broadcast => {
                lemma_snarf_orderly(caches, b, k - 1);
                me.cache.lemma_bus_steps(b);
            },
            Phase::Settle => {
                lemma_settle_orderly(caches, b, k - 1);
                me.cache.lemma_bus_steps(b);
            },
        }
        me.lemma_with_cache(r.0.cache);
    }
}

/// The cores and the bus after all caches have snooped, then, where read broadcast is
/// on, picked up what is read, and then settled.
pub open spec fn swept_all(cores: Seq<CoreView>, bus: BusView, read_broadcast: bool) -> (
    Seq<CoreView>,
    BusView,
) {
    let snooped = swept(Phase::Snoop, cores, bus, cores.len());
    let snarfed = if read_broadcast {
        swept(Phase::Broadcast, snooped.0, snooped.1, cores.len())
    } else {
        snooped
    };
    swept(Phase::Settle, snarfed.0, snarfed.1, cores.len())
}

/// The three phases that follow the steps leave the cores well formed, let no count
/// fall, leave the totals of the bus alone, and leave the caches and the bus orderly as
/// at the end of a cycle.
pub proof fn lemma_swept_all(cores: Seq<CoreView>, bus: BusView, read_broadcast: bool)
    requires
        numbered(cores),
        orderly(caches_of(cores), bus, 0, Stage::Stepping),
        forall|i: int| 0 <= i < cores.len() ==> (#[trigger] cores[i]).cache.has_room(),
        read_broadcast ==> forall|i: int|
            0 <= i < cores.len() ==> (#[trigger] cores[i]).cache.protocol is Mesi,
    ensures
        ({
            let r = swept_all(cores, bus, read_broadcast);
            &&& numbered(r.0)
            &&& rises(cores, r.0)
            &&& forall|i: int| 0 <= i < cores.len() ==> (#[trigger] r.0[i]).stats == cores[i].stats
            &&& r.1 == bus.with_task(r.1.task)
            &&& orderly(caches_of(r.0), r.1, cores.len() as int, Stage::Settled)
        }),
{
    let n = cores.len();
    lemma_start_snoop(caches_of(cores), bus);
    assert(sweeping(Phase::Snoop, cores, bus, 0, cores, bus));
    lemma_swept(Phase::Snoop, cores, bus, n);
    let snooped = swept(Phase::Snoop, cores, bus, n);
    let snarfed = if read_broadcast {
        swept(Phase::Broadcast, snooped.0, snooped.1, n)
    } else {
        snooped
    };
    if read_broadcast {
        assert(sweeping(Phase::Broadcast, snooped.0, snooped.1, 0, snooped.0, snooped.1));
        lemma_swept(Phase::Broadcast, snooped.0, snooped.1, n);
    }
    lemma_rises(cores, snooped.0, snarfed.0);
    lemma_settle_start(caches_of(snarfed.0), snarfed.1);
    assert(sweeping(Phase::Settle, snarfed.0, snarfed.1, 0, snarfed.0, snarfed.1));
    lemma_swept(Phase::Settle, snarfed.0, snarfed.1, n);
    let settled = swept(Phase::Settle, snarfed.0, snarfed.1, n);
    lemma_settle_end(caches_of(settled.0), settled.1);
    lemma_rises(cores, snarfed.0, settled.0);
}

/// Whether the caches of `later` are of the protocols of those of `earlier`.
pub open spec fn same_kinds(earlier: Seq<CoreView>, later: Seq<CoreView>) -> bool {
    &&& later.len() == earlier.len()
    &&& forall|i: int|
        0 <= i < earlier.len() ==> (#[trigger] later[i]).cache.protocol.kind()
            == earlier[i].cache.protocol.kind()
}

/// The steps of the cores keep the cores well formed and the caches and the bus
/// orderly, whether or not any count has room.
pub proof fn lemma_stepped_all_orderly(
    cores: Seq<CoreView>,
    bus: BusView,
    order: Seq<usize>,
    clk: usize,
    k: nat,
)
    requires
        numbered(cores),
        orderly(caches_of(cores), bus, 0, Stage::Stepping),
        names(order, cores.len()),
        k <= order.len(),
    ensures
        numbered(stepped_all(cores, bus, order, clk, k).0),
        same_kinds(cores, stepped_all(cores, bus, order, clk, k).0),
        orderly(
            caches_of(stepped_all(cores, bus, order, clk, k).0),
            stepped_all(cores, bus, order, clk, k).1,
            0,
            Stage::Stepping,
        ),
    decreases k,
{
    if k > 0 {
        lemma_stepped_all_orderly(cores, bus, order, clk, (k - 1) as nat);
        let (c, b, dead) = stepped_all(cores, bus, order, clk, (k - 1) as nat);
        let id = order[k - 1] as int;
        let me = c[id];
        let r = me.stepped(b, clk);
        assert(me.wf());
        assert(alike(caches_of(c)));
        assert(caches_of(c)[id] == me.cache);
        me.lemma_stepped_kept(b, clk);
        lemma_step_orderly(caches_of(c), b, id, r.0.cache, r.1);
        lemma_caches_of(c, id, r.0);
    }
}

/// What holds of the cores, their caches and the bus while the caches take their turns
/// in a phase, of which the first `k` have taken theirs, whether or not any count has
/// room: the cores are well formed, and the caches and the bus are orderly for the
/// phase.
pub open spec fn sweeping_orderly(phase: Phase, cores: Seq<CoreView>, bus: BusView, k: int) -> bool {
    &&& numbered(cores)
    &&& match phase {
        Phase::Snoop => orderly(caches_of(cores), bus, k, Stage::Snooped),
        Phase::Broadcast => orderly(caches_of(cores), bus, cores.len() as int, Stage::Snooped)
            && forall|i: int| 0 <= i < cores.len() ==> (#[trigger] cores[i]).cache.protocol is Mesi,
        Phase::Settle => orderly(caches_of(cores), bus, cores.len() as int, settling(bus, k)),
    }
}

/// The turns of the caches in a phase keep to `sweeping_orderly`.
pub proof fn lemma_swept_orderly(phase: Phase, cores: Seq<CoreView>, bus: BusView, k: nat)
    requires
        sweeping_orderly(phase, cores, bus, 0),
        k <= cores.len(),
    ensures
        same_kinds(cores, swept(phase, cores, bus, k).0),
        sweeping_orderly(
            phase,
            swept(phase, cores, bus, k).0,
            swept(phase, cores, bus, k).1,
            k as int,
        ),
    decreases k,
{
    if k > 0 {
        lemma_swept_orderly(phase, cores, bus, (k - 1) as nat);
        let (c, b) = swept(phase, cores, bus, (k - 1) as nat);
        let me = c[k - 1];
        let r = turn(me, phase, b);
        let caches = caches_of(c);
        assert(me.wf());
        assert(caches[k - 1] == me.cache);
        me.cache.lemma_bus_steps_room(b);
        me.cache.lemma_bus_steps(b);
        lemma_caches_of(c, k - 1, r.0);
        match phase {
            Phase::Snoop => {
                lemma_snoop_orderly(caches, b, k - 1);
            },
            Phase::Broadcast => {
                lemma_snarf_orderly(caches, b, k - 1);
            },
            Phase::Settle => {
                lemma_settle_orderly(caches, b, k - 1);
            },
        }
        me.lemma_with_cache(r.0.cache);
    }
}

/// The three phases that follow the steps leave the cores well formed and the caches
/// and the bus orderly as at the end of a cycle, whether or not any count has room.
pub proof fn lemma_swept_all_orderly(cores: Seq<CoreView>, bus: BusView, read_broadcast: bool)
    requires
        numbered(cores),
        orderly(caches_of(cores), bus, 0, Stage::Stepping),
        read_broadcast ==> forall|i: int|
            0 <= i < cores.len() ==> (#[trigger] cores[i]).cache.protocol is Mesi,
    ensures
        numbered(swept_all(cores, bus, read_broadcast).0),
        same_kinds(cores, swept_all(cores, bus, read_broadcast).0),
        orderly(
            caches_of(swept_all(cores, bus, read_broadcast).0),
            swept_all(cores, bus, read_broadcast).1,
            cores.len() as int,
            Stage::Settled,
        ),
{
    let n = cores.len();
    lemma_start_snoop(caches_of(cores), bus);
    lemma_swept_orderly(Phase::Snoop, cores, bus, n);
    let snooped = swept(Phase::Snoop, cores, bus, n);
    let snarfed = if read_broadcast {
        swept(Phase::Broadcast, snooped.0, snooped.1, n)
    } else {
        snooped
    };
    if read_broadcast {
        assert forall|i: int| 0 <= i < n implies (#[trigger] snooped.0[i]).cache.protocol is Mesi by {
            assert(cores[i].cache.protocol is Mesi);
        }
        lemma_swept_orderly(Phase::Broadcast, snooped.0, snooped.1, n);
    }
    lemma_settle_start(caches_of(snarfed.0), snarfed.1);
    lemma_swept_orderly(Phase::Settle, snarfed.0, snarfed.1, n);
    let settled = swept(Phase::Settle, snarfed.0, snarfed.1, n);
    lemma_settle_end(caches_of(settled.0), settled.1);
}

/// A system of cores as a value.
#[verifier::ext_equal]
pub struct SystemView {
    pub cores: Seq<CoreView>,
    /// The cores whose traces have not run out, in the order of their last steps.
    pub active: Seq<usize>,
    pub bus: BusView,
    /// Number of cycles simulated.
    pub clk: usize,
    /// State of the generator that breaks ties.
    pub seed: u64,
    /// Whether caches pick up blocks that other caches read.
    pub read_broadcast: bool,
}

impl SystemView {
    /// The cores are well formed and numbered in order, their caches and the bus are
    /// orderly as at the end of a cycle, the active cores are cores, and read broadcast
    /// is on with MESI only.
    pub open spec fn coherent(self) -> bool {
        &&& numbered(self.cores)
        &&& orderly(caches_of(self.cores), self.bus, self.cores.len() as int, Stage::Settled)
        &&& names(self.active, self.cores.len())
        &&& self.read_broadcast ==> forall|i: int|
            0 <= i < self.cores.len() ==> (#[trigger] self.cores[i]).cache.protocol is Mesi
    }

    /// The system is coherent, and no core has ended after the cycle that the clock
    /// shows.
    pub open spec fn wf(self) -> bool {
        &&& self.coherent()
        &&& ended_by(self.cores, self.clk)
    }

    /// Whether the counts of the cores, of their caches and of the bus, and the clock,
    /// have room for one more cycle.
    pub open spec fn has_room(self) -> bool {
        &&& self.clk < usize::MAX
        &&& forall|i: int| 0 <= i < self.cores.len() ==> (#[trigger] self.cores[i]).spare()
        &&& bus_spare(self.cores, self.bus)
    }

    /// The order in which the active cores take their steps in the next cycle: what
    /// the shuffle makes of them.
    pub open spec fn turns(self) -> Seq<usize> {
        shuffled(self.active, self.seed, 1).0
    }

    /// The system one cycle later, and whether the simulation is over: what a cycle
    /// makes of it in which the cores step in shuffled order.
    pub open spec fn updated(self) -> (SystemView, bool) {
        self.updated_by(self.turns(), shuffled(self.active, self.seed, 1).1)
    }

    /// The system after a cycle in which the active cores take their steps in `order`
    /// and which leaves `seed` for the next shuffle, and whether the simulation is
    /// over. The clock and the bus count the cycle. The cores take their steps, and
    /// those whose traces have run out leave the active cores. Then all caches snoop,
    /// in the order of their numbers; then, where read broadcast is on, they pick up
    /// what is read; then they settle. The simulation is over when no core is active.
    pub open spec fn updated_by(self, order: Seq<usize>, seed: u64) -> (SystemView, bool) {
        let clk = (self.clk + 1) as usize;
        let bus = self.bus.updated();
        let stepped = stepped_all(self.cores, bus, order, clk, order.len());
        let active = kept(order, stepped.2, order.len());
        let settled = swept_all(stepped.0, stepped.1, self.read_broadcast);
        (
            SystemView { cores: settled.0, active, bus: settled.1, clk, seed, ..self },
            active.len() == 0,
        )
    }

    /// No count of `self` is below that of `earlier`: not the clock, not the totals of
    /// the bus, not the counts of any core or cache.
    pub open spec fn no_less_than(self, earlier: SystemView) -> bool {
        &&& self.clk >= earlier.clk
        &&& self.bus.traffic >= earlier.bus.traffic
        &&& self.bus.num_invalid_or_upd >= earlier.bus.num_invalid_or_upd
        &&& rises(earlier.cores, self.cores)
    }

    /// A system for the given traces, with caches that hold nothing.
    pub open spec fn fresh(
        kind: ProtocolKind,
        cache_size: usize,
        associativity: usize,
        block_size: usize,
        traces: Seq<(Seq<Record>, Seq<char>)>,
        read_broadcast: bool,
    ) -> SystemView {
        SystemView {
            cores: Seq::new(
                traces.len(),
                |i: int|
                    CoreView::fresh(
                        kind,
                        cache_size,
                        associativity,
                        block_size,
                        traces[i].0,
                        traces[i].1,
                        i as usize,
                    ),
            ),
            active: Seq::new(traces.len(), |i: int| i as usize),
            bus: BusView { task: None, traffic: 0, num_invalid_or_upd: 0 },
            clk: 0,
            seed: 0,
            read_broadcast,
        }
    }
}

impl SystemView {
    /// The system after as many cycles as `turns` is long, in each of which the active
    /// cores step in the order that `turns` gives for it, together with the seed that
    /// the cycle leaves.
    #[verifier::opaque]
    pub open spec fn ran(self, turns: Seq<(Seq<usize>, u64)>) -> SystemView
        decreases turns.len(),
    {
        if turns.len() == 0 {
            self
        } else {
            self.ran(turns.drop_last()).updated_by(turns.last().0, turns.last().1).0
        }
    }

    /// Whether the order that `turns` gives for each cycle is a permutation of the
    /// cores that are active when the cycle begins.
    pub open spec fn permuted(self, turns: Seq<(Seq<usize>, u64)>) -> bool {
        forall|k: int|
            0 <= k < turns.len() ==> (#[trigger] turns[k]).0.to_multiset() == self.ran(
                turns.take(k),
            ).active.to_multiset()
    }

    /// A run of `k` cycles is a run of `k - 1` cycles and one cycle more.
    pub proof fn lemma_ran(self, turns: Seq<(Seq<usize>, u64)>, k: int)
        requires
            1 <= k <= turns.len(),
        ensures
            self.ran(turns.take(k)) == self.ran(turns.take(k - 1)).updated_by(
                turns[k - 1].0,
                turns[k - 1].1,
            ).0,
    {
        reveal(SystemView::ran);
        assert(turns.take(k).drop_last() =~= turns.take(k - 1));
        assert(turns.take(k).last() == turns[k - 1]);
    }

    /// A run of one cycle is that cycle, and the order of the first cycle of a run in
    /// which every order is a permutation of the active cores is one of those of the
    /// system itself.
    pub proof fn lemma_ran_first(self, turns: Seq<(Seq<usize>, u64)>)
        requires
            1 <= turns.len(),
        ensures
            self.ran(turns.take(1)) == self.updated_by(turns[0].0, turns[0].1).0,
            self.permuted(turns) ==> turns[0].0.to_multiset() == self.active.to_multiset(),
    {
        assert(turns.take(0) =~= Seq::empty());
        assert(self.ran(turns.take(0)) == self) by {
            reveal(SystemView::ran);
        }
        self.lemma_ran(turns, 1);
    }
}

/// What a shuffle gives names the cores that the order named.
pub proof fn lemma_shuffled_names(order: Seq<usize>, after: Seq<usize>, n: nat)
    requires
        names(order, n),
        after.to_multiset() == order.to_multiset(),
    ensures
        names(after, n),
        after.len() == order.len(),
{
    order.lemma_multiset_has_no_duplicates();
    after.lemma_multiset_has_no_duplicates_conv();
    vstd::seq_lib::to_multiset_len(order);
    vstd::seq_lib::to_multiset_len(after);
    assert forall|k: int| 0 <= k < after.len() implies #[trigger] after[k] < n by {
        vstd::seq_lib::to_multiset_contains(after, after[k]);
        vstd::seq_lib::to_multiset_contains(order, after[k]);
        assert(after.contains(after[k]));
        let idx = choose|idx: int| 0 <= idx < order.len() && order[idx] == after[k];
        assert(order[idx] < n);
    }
}

/// Those that are kept of an order that names cores name cores.
pub proof fn lemma_kept_names(order: Seq<usize>, dead: Seq<usize>, k: nat, n: nat)
    requires
        names(order, n),
        k <= order.len(),
    ensures
        names(kept(order, dead, k), n),
        forall|x: usize| kept(order, dead, k).contains(x) ==> exists|j: int| 0 <= j < k && order[j] == x,
    decreases k,
{
    if k > 0 {
        lemma_kept_names(order, dead, (k - 1) as nat, n);
        let rest = kept(order, dead, (k - 1) as nat);
        let now = kept(order, dead, k);
        if !dead.contains(order[k - 1]) {
            assert forall|i: int, j: int| 0 <= i < now.len() && 0 <= j < now.len() && i != j implies now[i] != now[j] by {
                if i == now.len() - 1 {
                    assert(rest.contains(now[j]));
                } else if j == now.len() - 1 {
                    assert(rest.contains(now[i]));
                }
            }
            assert forall|x: usize| now.contains(x) implies exists|j: int| 0 <= j < k && order[j] == x by {
                let i = choose|i: int| 0 <= i < now.len() && now[i] == x;
                if i == now.len() - 1 {
                    assert(order[k - 1] == x);
                } else {
                    assert(rest.contains(x));
                }
            }
        }
    }
}

impl SystemView {
    /// A cycle in which the active cores step in any order keeps a system well formed
    /// and lets no count fall.
    pub proof fn lemma_updated(self, order: Seq<usize>, seed: u64)
        requires
            self.wf(),
            self.has_room(),
            order.to_multiset() == self.active.to_multiset(),
        ensures
            self.updated_by(order, seed).0.wf(),
            self.updated_by(order, seed).0.no_less_than(self),
            self.updated_by(order, seed).0.cores.len() == self.cores.len(),
    {
        let n = self.cores.len();
        let clk = (self.clk + 1) as usize;
        let bus = self.bus.updated();
        lemma_shuffled_names(self.active, order, n);
        lemma_next_cycle(caches_of(self.cores), self.bus);
        assert(bus_spare(self.cores, bus));
        lemma_stepped_all(self.cores, bus, order, clk, order.len());
        let stepped = stepped_all(self.cores, bus, order, clk, order.len());
        lemma_kept_names(order, stepped.2, order.len(), n);
        if self.read_broadcast {
            assert forall|i: int| 0 <= i < n implies (#[trigger] stepped.0[i]).cache.protocol is Mesi by {
                assert(self.cores[i].cache.protocol is Mesi);
            }
        }
        lemma_swept_all(stepped.0, stepped.1, self.read_broadcast);
        let settled = swept_all(stepped.0, stepped.1, self.read_broadcast);
        lemma_rises(self.cores, stepped.0, settled.0);
        let last = self.updated_by(order, seed).0;
        if self.read_broadcast {
            assert forall|i: int| 0 <= i < n implies (#[trigger] last.cores[i]).cache.protocol is Mesi by {
                assert(self.cores[i].cache.protocol is Mesi);
            }
        }
    }

    /// A cycle in which the active cores step in any order keeps a system coherent,
    /// whether or not its counts have room.
    pub proof fn lemma_coherent(self, order: Seq<usize>, seed: u64)
        requires
            self.coherent(),
            order.to_multiset() == self.active.to_multiset(),
        ensures
            self.updated_by(order, seed).0.coherent(),
            self.updated_by(order, seed).0.cores.len() == self.cores.len(),
    {
        let n = self.cores.len();
        let clk = (self.clk + 1) as usize;
        let bus = self.bus.updated();
        lemma_shuffled_names(self.active, order, n);
        lemma_next_cycle(caches_of(self.cores), self.bus);
        lemma_stepped_all_orderly(self.cores, bus, order, clk, order.len());
        let stepped = stepped_all(self.cores, bus, order, clk, order.len());
        lemma_kept_names(order, stepped.2, order.len(), n);
        if self.read_broadcast {
            assert forall|i: int| 0 <= i < n implies (#[trigger] stepped.0[i]).cache.protocol is Mesi by {
                assert(self.cores[i].cache.protocol is Mesi);
            }
        }
        lemma_swept_all_orderly(stepped.0, stepped.1, self.read_broadcast);
        let last = self.updated_by(order, seed).0;
        if self.read_broadcast {
            assert forall|i: int| 0 <= i < n implies (#[trigger] last.cores[i]).cache.protocol is Mesi by {
                assert(self.cores[i].cache.protocol is Mesi);
                assert(stepped.0[i].cache.protocol is Mesi);
            }
        }
    }

    /// A run in which the active cores step in any order, cycle by cycle, keeps a
    /// system coherent, whether or not its counts have room.
    pub proof fn lemma_ran_coherent(self, turns: Seq<(Seq<usize>, u64)>)
        requires
            self.coherent(),
            self.permuted(turns),
        ensures
            self.ran(turns).coherent(),
            self.ran(turns).cores.len() == self.cores.len(),
        decreases turns.len(),
    {
        if turns.len() == 0 {
            reveal(SystemView::ran);
        } else {
            let k = (turns.len() - 1) as int;
            let before = turns.take(k);
            assert forall|i: int| 0 <= i < before.len() implies (#[trigger] before[i]).0.to_multiset()
                == self.ran(before.take(i)).active.to_multiset() by {
                assert(before.take(i) =~= turns.take(i));
                assert(before[i] == turns[i]);
            }
            self.lemma_ran_coherent(before);
            self.lemma_ran(turns, turns.len() as int);
            assert(turns.take(turns.len() as int) =~= turns);
            assert(turns[k].0.to_multiset() == self.ran(turns.take(k)).active.to_multiset());
            self.ran(before).lemma_coherent(turns[k].0, turns[k].1);
        }
    }

    /// In every cache of a system fewer than three accesses wait, a store only as the
    /// last, and in every slot the table of the protocol carries the tag that the tag
    /// array stores.
    pub proof fn lemma_caches_in_order(self, i: int, idx: int)
        requires
            self.wf(),
            0 <= i < self.cores.len(),
            0 <= idx < self.cores[i].cache.tags.len(),
        ensures
            self.cores[i].cache.pending.len() < 3,
            self.cores[i].cache.in_order(),
            self.cores[i].cache.protocol.tag(idx) == self.cores[i].cache.tags[idx],
    {
        assert(self.cores[i].wf());
        self.cores[i].cache.lemma_tags_agree(idx);
    }

    /// At the end of a cycle no two caches hold a block modified, and no two own one.
    pub proof fn lemma_single_owner(self, i: int, j: int, a: u32)
        requires
            self.coherent(),
            0 <= i < self.cores.len(),
            0 <= j < self.cores.len(),
            i != j,
        ensures
            !(self.cores[i].cache.held(a) is Modified && self.cores[j].cache.held(a) is Modified),
            !(self.cores[i].cache.held(a) is SharedModified && self.cores[j].cache.held(a) is SharedModified),
            compatible(self.cores[i].cache.held(a), self.cores[j].cache.held(a)),
    {
        lemma_settled_coherent(caches_of(self.cores), self.bus);
        assert(pair_ok(caches_of(self.cores), None, 0, i, j, a));
    }
}

/// Counts that did not fall from a first state to a second nor from there to a third
/// did not fall from the first to the third.
pub proof fn lemma_rises(first: Seq<CoreView>, second: Seq<CoreView>, third: Seq<CoreView>)
    requires
        rises(first, second),
        rises(second, third),
    ensures
        rises(first, third),
{
    assert forall|i: int| 0 <= i < first.len() implies {
        &&& (#[trigger] third[i]).stats.no_less_than(first[i].stats)
        &&& third[i].cache.stats.no_less_than(first[i].cache.stats)
        &&& third[i].stats.file_name == first[i].stats.file_name
        &&& third[i].cache.protocol.kind() == first[i].cache.protocol.kind()
    } by {
        assert(second[i].stats.no_less_than(first[i].stats));
        assert(third[i].stats.no_less_than(second[i].stats));
    }
}

/// What is orderly once all caches have snooped is orderly when the first cache is to
/// settle.
pub proof fn lemma_settle_start(caches: Seq<CacheView>, bus: BusView)
    requires
        orderly(caches, bus, caches.len() as int, Stage::Snooped),
    ensures
        orderly(caches, bus, caches.len() as int, settling(bus, 0)),
{
    let n = caches.len() as int;
    assert forall|i: int, j: int, a: u32|
        0 <= i < caches.len() && 0 <= j < caches.len() && i != j implies #[trigger] pair_ok(
        caches,
        bus.task,
        n,
        i,
        j,
        a,
    ) by {
        assert(pair_ok(caches, bus.task, n, i, j, a));
    }
}

/// What is orderly once the last cache has had its turn at settling is orderly as at
/// the end of a cycle.
pub proof fn lemma_settle_end(caches: Seq<CacheView>, bus: BusView)
    requires
        orderly(caches, bus, caches.len() as int, settling(bus, caches.len() as int)),
    ensures
        orderly(caches, bus, caches.len() as int, Stage::Settled),
{
    let n = caches.len() as int;
    assert forall|i: int, j: int, a: u32|
        0 <= i < caches.len() && 0 <= j < caches.len() && i != j implies #[trigger] pair_ok(
        caches,
        bus.task,
        n,
        i,
        j,
        a,
    ) by {
        assert(pair_ok(caches, bus.task, n, i, j, a));
    }
}

/// A multi-core system: the cores with their caches, and the bus that they share.
pub struct System {
    cores: Vec<Core>,
    active_cores: Vec<usize>,
    bus: Bus,
    clk: usize,
    rng_state: u64,
    optimizations: Optimizations,
}

/// The cores as values.
pub open spec fn views(cores: Seq<Core>) -> Seq<CoreView> {
    Seq::new(cores.len(), |i: int| cores[i]@)
}

/// The traces and the names of the files that they come from.
pub open spec fn traces_of(streams: Seq<RecordStream>) -> Seq<(Seq<Record>, Seq<char>)> {
    Seq::new(streams.len(), |i: int| (streams[i].records(), streams[i].name()))
}

impl View for System {
    type V = SystemView;

    closed spec fn view(&self) -> SystemView {
        SystemView {
            cores: views(self.cores@),
            active: self.active_cores@,
            bus: self.bus@,
            clk: self.clk,
            seed: self.rng_state,
            read_broadcast: self.optimizations.read_broadcast,
        }
    }
}

impl SystemView {
    /// A system with caches of a valid shape that hold nothing is well formed and has
    /// room for a cycle.
    pub proof fn lemma_fresh(
        kind: ProtocolKind,
        cache_size: usize,
        associativity: usize,
        block_size: usize,
        traces: Seq<(Seq<Record>, Seq<char>)>,
        read_broadcast: bool,
    )
        requires
            valid_geometry(cache_size as nat, associativity as nat, block_size as nat),
            read_broadcast ==> kind is Mesi,
            traces.len() <= usize::MAX,
        ensures
            Self::fresh(kind, cache_size, associativity, block_size, traces, read_broadcast).wf(),
            Self::fresh(
                kind,
                cache_size,
                associativity,
                block_size,
                traces,
                read_broadcast,
            ).has_room(),
    {
        let s = Self::fresh(kind, cache_size, associativity, block_size, traces, read_broadcast);
        let caches = caches_of(s.cores);
        assert forall|i: int| 0 <= i < s.cores.len() implies (#[trigger] s.cores[i]).wf()
            && s.cores[i].id == i && s.cores[i].spare() by {
            CacheView::lemma_fresh(i as usize, cache_size, associativity, block_size, kind);
        }
        assert(alike(caches)) by {
            assert forall|i: int| 0 <= i < caches.len() implies {
                &&& (#[trigger] caches[i]).wf()
                &&& caches[i].core_id == i
                &&& caches[i].layout == caches[0].layout
                &&& caches[i].block_size == caches[0].block_size
                &&& caches[i].protocol.kind() == caches[0].protocol.kind()
            } by {
                assert(s.cores[i].wf());
                assert(s.cores[0].wf());
            }
        }
        assert forall|i: int, j: int, a: u32|
            0 <= i < caches.len() && 0 <= j < caches.len() && i != j implies #[trigger] pair_ok(
            caches,
            s.bus.task,
            caches.len() as int,
            i,
            j,
            a,
        ) by {
            CacheView::lemma_fresh_empty(
                i as usize,
                cache_size,
                associativity,
                block_size,
                kind,
                a,
            );
            CacheView::lemma_fresh_empty(
                j as usize,
                cache_size,
                associativity,
                block_size,
                kind,
                a,
            );
        }
    }
    /// Whatever the traces are, and in whatever order the active cores step cycle by
    /// cycle, every state that a run reaches from caches that hold nothing is
    /// coherent: beside a modified or an exclusive copy of a block no other cache holds
    /// a copy, and no two caches own a block. This does not depend on room in any
    /// count.
    pub proof fn lemma_always_coherent(
        kind: ProtocolKind,
        cache_size: usize,
        associativity: usize,
        block_size: usize,
        traces: Seq<(Seq<Record>, Seq<char>)>,
        read_broadcast: bool,
        turns: Seq<(Seq<usize>, u64)>,
        i: int,
        j: int,
        a: u32,
    )
        requires
            valid_geometry(cache_size as nat, associativity as nat, block_size as nat),
            read_broadcast ==> kind is Mesi,
            traces.len() <= usize::MAX,
            Self::fresh(
                kind,
                cache_size,
                associativity,
                block_size,
                traces,
                read_broadcast,
            ).permuted(turns),
            0 <= i < traces.len(),
            0 <= j < traces.len(),
            i != j,
        ensures
            ({
                let last = Self::fresh(
                    kind,
                    cache_size,
                    associativity,
                    block_size,
                    traces,
                    read_broadcast,
                ).ran(turns);
                &&& last.cores.len() == traces.len()
                &&& compatible(last.cores[i].cache.held(a), last.cores[j].cache.held(a))
                &&& !(last.cores[i].cache.held(a) is Modified && last.cores[j].cache.held(a)
                    is Modified)
                &&& !(last.cores[i].cache.held(a) is SharedModified && last.cores[j].cache.held(a)
                    is SharedModified)
            }),
    {
        let s = Self::fresh(kind, cache_size, associativity, block_size, traces, read_broadcast);
        Self::lemma_fresh(kind, cache_size, associativity, block_size, traces, read_broadcast);
        s.lemma_ran_coherent(turns);
        s.ran(turns).lemma_single_owner(i, j, a);
    }
}

impl System {
    /// A system for the given traces, one core for each, with caches of the given shape
    /// that hold nothing.
    pub fn new(
        protocol: &ProtocolKind,
        cache_size: usize,
        associativity: usize,
        block_size: usize,
        record_streams: Vec<RecordStream>,
        optimizations: Optimizations,
    ) -> (system: Self)
        requires
            valid_geometry(cache_size as nat, associativity as nat, block_size as nat),
            optimizations.read_broadcast ==> *protocol is Mesi,
            forall|i: int|
                0 <= i < record_streams@.len() ==> (#[trigger] record_streams@[i]).wf()
                    && record_streams@[i].position() == 0,
        ensures
            system@ == SystemView::fresh(
                *protocol,
                cache_size,
                associativity,
                block_size,
                traces_of(record_streams@),
                optimizations.read_broadcast,
            ),
            system@.wf(),
            system@.has_room(),
    {
        let ghost traces = traces_of(record_streams@);
        let ghost given = record_streams@;
        let n: usize = record_streams.len();
        let mut streams = record_streams;
        let mut reversed: Vec<RecordStream> = Vec::new();
        while streams.len() > 0
            invariant
                streams@.len() + reversed@.len() == n,
                n == given.len(),
                forall|j: int| 0 <= j < streams@.len() ==> streams@[j] == given[j],
                forall|j: int| 0 <= j < reversed@.len() ==> reversed@[j] == given[n - 1 - j],
            decreases streams@.len(),
        {
            let stream = streams.pop().unwrap();
            reversed.push(stream);
        }
        let mut cores: Vec<Core> = Vec::new();
        let mut active_cores: Vec<usize> = Vec::new();
        let mut id: usize = 0;
        while reversed.len() > 0
            invariant
                id + reversed@.len() == n,
                n == given.len(),
                valid_geometry(cache_size as nat, associativity as nat, block_size as nat),
                forall|j: int| 0 <= j < reversed@.len() ==> reversed@[j] == given[n - 1 - j],
                forall|i: int|
                    0 <= i < given.len() ==> (#[trigger] given[i]).wf() && given[i].position() == 0,
                cores@.len() == id,
                active_cores@.len() == id,
                forall|i: int| 0 <= i < id ==> active_cores@[i] == i,
                forall|i: int|
                    0 <= i < id ==> (#[trigger] cores@[i])@ == CoreView::fresh(
                        *protocol,
                        cache_size,
                        associativity,
                        block_size,
                        given[i].records(),
                        given[i].name(),
                        i as usize,
                    ),
            decreases reversed@.len(),
        {
            let stream = reversed.pop().unwrap();
            assert(stream == given[id as int]);
            cores.push(Core::new(protocol, cache_size, associativity, block_size, stream, id));
            active_cores.push(id);
            id = id + 1;
        }
        let system = System {
            active_cores,
            cores,
            bus: Bus::new(),
            clk: 0,
            rng_state: 0,
            optimizations,
        };
        proof {
            let fresh = SystemView::fresh(
                *protocol,
                cache_size,
                associativity,
                block_size,
                traces,
                optimizations.read_broadcast,
            );
            assert(system@.cores =~= fresh.cores);
            assert(system@.active =~= fresh.active);
            SystemView::lemma_fresh(
                *protocol,
                cache_size,
                associativity,
                block_size,
                traces,
                optimizations.read_broadcast,
            );
        }
        system
    }

    fn step_all(&mut self) -> (deactivated: Vec<usize>)
        requires
            numbered(views(old(self).cores@)),
            orderly(caches_of(views(old(self).cores@)), old(self).bus@, 0, Stage::Stepping),
            forall|i: int|
                0 <= i < old(self).cores@.len() ==> (#[trigger] views(old(self).cores@)[i]).spare(),
            bus_spare(views(old(self).cores@), old(self).bus@),
            names(old(self).active_cores@, old(self).cores@.len()),
            ended_by(views(old(self).cores@), old(self).clk),
        ensures
            (views(final(self).cores@), final(self).bus@, deactivated@) == stepped_all(
                views(old(self).cores@),
                old(self).bus@,
                old(self).active_cores@,
                old(self).clk,
                old(self).active_cores@.len(),
            ),
            final(self).active_cores@ == old(self).active_cores@,
            final(self).clk == old(self).clk,
            final(self).rng_state == old(self).rng_state,
            final(self).optimizations == old(self).optimizations,
    {
        let ghost start = views(self.cores@);
        let ghost first = self.bus@;
        let ghost order = self.active_cores@;
        let ghost clk = self.clk;
        let mut deactivated: Vec<usize> = Vec::new();
        let mut k: usize = 0;
        while k < self.active_cores.len()
            invariant
                k <= order.len(),
                self.active_cores@ == order,
                self.clk == clk,
                self.rng_state == old(self).rng_state,
                self.optimizations == old(self).optimizations,
                self.cores@.len() == start.len(),
                numbered(start),
                orderly(caches_of(start), first, 0, Stage::Stepping),
                forall|i: int| 0 <= i < start.len() ==> (#[trigger] start[i]).spare(),
                bus_spare(start, first),
                names(order, start.len()),
                ended_by(start, clk),
                (views(self.cores@), self.bus@, deactivated@) == stepped_all(
                    start,
                    first,
                    order,
                    clk,
                    k as nat,
                ),
            decreases order.len() - k,
        {
            let core_id: usize = self.active_cores[k];
            proof {
                lemma_stepped_all(start, first, order, clk, k as nat);
                let now = views(self.cores@);
                assert(now[core_id as int] == start[core_id as int]);
                assert(start[core_id as int].spare());
                assert(now[core_id as int].wf());
                if self.bus@ == first {
                    assert(first.has_room(start[core_id as int].cache.block_size));
                }
            }
            let ghost before = views(self.cores@);
            let ghost bus = self.bus@;
            let active: bool = self.cores[core_id].step(&mut self.bus, self.clk);
            if !active {
                deactivated.push(core_id);
            }
            proof {
                assert(views(self.cores@) =~= before.update(
                    core_id as int,
                    before[core_id as int].stepped(bus, clk).0,
                ));
            }
            k = k + 1;
        }
        deactivated
    }

    fn sweep(&mut self, phase: Phase)
        requires
            sweeping(
                phase,
                views(old(self).cores@),
                old(self).bus@,
                0,
                views(old(self).cores@),
                old(self).bus@,
            ),
        ensures
            (views(final(self).cores@), final(self).bus@) == swept(
                phase,
                views(old(self).cores@),
                old(self).bus@,
                old(self).cores@.len() as nat,
            ),
            final(self).active_cores@ == old(self).active_cores@,
            final(self).clk == old(self).clk,
            final(self).rng_state == old(self).rng_state,
            final(self).optimizations == old(self).optimizations,
    {
        let ghost start = views(self.cores@);
        let ghost first = self.bus@;
        let n: usize = self.cores.len();
        let mut k: usize = 0;
        while k < n
            invariant
                k <= n,
                n == start.len(),
                self.cores@.len() == n,
                self.active_cores@ == old(self).active_cores@,
                self.clk == old(self).clk,
                self.rng_state == old(self).rng_state,
                self.optimizations == old(self).optimizations,
                sweeping(phase, start, first, 0, start, first),
                (views(self.cores@), self.bus@) == swept(phase, start, first, k as nat),
            decreases n - k,
        {
            let ghost before = views(self.cores@);
            let ghost bus = self.bus@;
            proof {
                lemma_swept(phase, start, first, k as nat);
                assert(caches_of(before)[k as int] == before[k as int].cache);
                assert(before[k as int].wf());
            }
            match phase {
                Phase::Snoop => {
                    proof {
                        lemma_snoop_orderly(caches_of(before), bus, k as int);
                    }
                    self.cores[k].snoop(&mut self.bus);
                },
                Phase::Broadcast => {
                    proof {
                        lemma_snarf_orderly(caches_of(before), bus, k as int);
                    }
                    self.cores[k].read_broadcast(&mut self.bus);
                },
                Phase::Settle => {
                    proof {
                        lemma_settle_orderly(caches_of(before), bus, k as int);
                    }
                    self.cores[k].after_snoop(&mut self.bus);
                },
            }
            proof {
                assert(views(self.cores@) =~= before.update(
                    k as int,
                    turn(before[k as int], phase, bus).0,
                ));
            }
            k = k + 1;
        }
    }

    /// Execute one simulator step (one cycle) of the multi core system.
    /// Returns true on end of simulation (all instructions executed).
    pub fn update(&mut self) -> (done: bool)
        requires
            old(self)@.wf(),
            old(self)@.has_room(),
        ensures
            (final(self)@, done) == old(self)@.updated(),
            old(self)@.turns().to_multiset() == old(self)@.active.to_multiset(),
            final(self)@.wf(),
            final(self)@.no_less_than(old(self)@),
            final(self)@.cores.len() == old(self)@.cores.len(),
    {
        let ghost start = self@;
        self.clk += 1;
        self.bus.update();
        let seed: u64 = shuffle(&mut self.active_cores, self.rng_state, 1);
        self.rng_state = seed;
        proof {
            start.lemma_updated(self.active_cores@, seed);
            lemma_shuffled_names(start.active, self.active_cores@, start.cores.len());
            lemma_next_cycle(caches_of(start.cores), start.bus);
            assert(bus_spare(start.cores, self.bus@));
        }
        let ghost order = self.active_cores@;
        let ghost bus = self.bus@;
        // run 1: parse new instructions / update state
        let deactivated: Vec<usize> = self.step_all();
        if deactivated.len() > 0 {
            let mut remaining: Vec<usize> = Vec::new();
            let mut i: usize = 0;
            while i < self.active_cores.len()
                invariant
                    i <= order.len(),
                    self.active_cores@ == order,
                    remaining@ == kept(order, deactivated@, i as nat),
                decreases order.len() - i,
            {
                let core_id: usize = self.active_cores[i];
                if !contains(&deactivated, core_id) {
                    remaining.push(core_id);
                }
                i = i + 1;
            }
            self.active_cores = remaining;
        } else {
            proof {
                lemma_kept_all(order, deactivated@, order.len());
            }
        }
        proof {
            lemma_stepped_all(start.cores, bus, order, self.clk, order.len());
            let stepped = stepped_all(start.cores, bus, order, self.clk, order.len());
            lemma_start_snoop(caches_of(stepped.0), stepped.1);
            assert(sweeping(Phase::Snoop, stepped.0, stepped.1, 0, stepped.0, stepped.1));
        }
        let ghost stepped = (views(self.cores@), self.bus@);
        // run 2: snoop other cores' actions
        self.sweep(Phase::Snoop);
        // run 2.5: read broadcast optimization (if enabled)
        if self.optimizations.read_broadcast {
            proof {
                lemma_swept(Phase::Snoop, stepped.0, stepped.1, stepped.0.len());
                let snooped = (views(self.cores@), self.bus@);
                assert forall|i: int| 0 <= i < snooped.0.len() implies (
                #[trigger] snooped.0[i]).cache.protocol is Mesi by {
                    assert(start.cores[i].cache.protocol is Mesi);
                }
                assert(sweeping(Phase::Broadcast, snooped.0, snooped.1, 0, snooped.0, snooped.1));
            }
            self.sweep(Phase::Broadcast);
        }
        // run 3: cleanup after bus snooping
        proof {
            lemma_swept(Phase::Snoop, stepped.0, stepped.1, stepped.0.len());
            if start.read_broadcast {
                let snooped = swept(Phase::Snoop, stepped.0, stepped.1, stepped.0.len());
                assert forall|i: int| 0 <= i < snooped.0.len() implies (
                #[trigger] snooped.0[i]).cache.protocol is Mesi by {
                    assert(start.cores[i].cache.protocol is Mesi);
                }
                assert(sweeping(Phase::Broadcast, snooped.0, snooped.1, 0, snooped.0, snooped.1));
                lemma_swept(Phase::Broadcast, snooped.0, snooped.1, snooped.0.len());
            }
            let snarfed = (views(self.cores@), self.bus@);
            lemma_settle_start(caches_of(snarfed.0), snarfed.1);
            assert(sweeping(Phase::Settle, snarfed.0, snarfed.1, 0, snarfed.0, snarfed.1));
        }
        self.sweep(Phase::Settle);
        self.active_cores.len() == 0
    }

    /// Whether the counts have room for one more cycle.
    pub fn has_room(&self) -> (ok: bool)
        requires
            self@.wf(),
        ensures
            ok == self@.has_room(),
    {
        if self.clk == usize::MAX {
            return false;
        }
        let traffic: usize = self.bus.traffic();
        if self.bus.num_invalid_or_upd() == usize::MAX {
            proof {
                if self@.cores.len() == 0 {
                } else {
                    assert(!self@.bus.has_room(self@.cores[0].cache.block_size));
                }
            }
            return self.cores.len() == 0;
        }
        if self.cores.len() > 0 && traffic > usize::MAX - WORD_SIZE {
            proof {
                assert(!self@.bus.has_room(WORD_SIZE));
                assert(self@.cores[0].wf());
            }
            return false;
        }
        let mut i: usize = 0;
        while i < self.cores.len()
            invariant
                i <= self.cores@.len(),
                self@.wf(),
                traffic == self@.bus.traffic,
                self@.bus.num_invalid_or_upd < usize::MAX,
                self.cores@.len() > 0 ==> self@.bus.has_room(WORD_SIZE),
                forall|j: int|
                    0 <= j < i ==> (#[trigger] self@.cores[j]).spare() && self@.bus.has_room(
                        self@.cores[j].cache.block_size,
                    ),
            decreases self.cores@.len() - i,
        {
            assert(self@.cores[i as int] == self.cores@[i as int]@);
            assert(self@.cores[i as int].wf());
            if !self.cores[i].spare() || traffic > usize::MAX - self.cores[i].block_size() {
                return false;
            }
            i = i + 1;
        }
        true
    }

    /// Number of cycles simulated.
    pub fn clock(&self) -> (clk: usize)
        ensures
            clk == self@.clk,
    {
        self.clk
    }

    /// Number of cores.
    pub fn num_cores(&self) -> (n: usize)
        ensures
            n == self@.cores.len(),
    {
        self.cores.len()
    }

    /// Core `i`.
    pub fn core_at(&self, i: usize) -> (found: &Core)
        requires
            i < self@.cores.len(),
        ensures
            found@ == self@.cores[i as int],
    {
        &self.cores[i]
    }

    /// The bus.
    pub fn bus(&self) -> (bus: &Bus)
        ensures
            bus@ == self@.bus,
    {
        &self.bus
    }

    /// Whether the simulation is over: no core has records left.
    pub fn finished(&self) -> (done: bool)
        ensures
            done == (self@.active.len() == 0),
    {
        self.active_cores.len() == 0
    }

    /// Compares, for every core, the tag array of the cache with the table of its
    /// protocol: tells whether every table carries, in every slot that stores a tag,
    /// that tag. A well-formed system passes.
    pub fn sanity_check(&self) -> (ok: bool)
        requires
            self@.tables_fit(),
        ensures
            ok == self@.tables_match(),
            self@.wf() ==> ok,
    {
        let mut i: usize = 0;
        while i < self.cores.len()
            invariant
                i <= self.cores@.len(),
                self@.tables_fit(),
                forall|j: int| 0 <= j < i ==> (#[trigger] self@.cores[j]).cache.tables_match(),
            decreases self.cores@.len() - i,
        {
            assert(self@.cores[i as int] == self.cores@[i as int]@);
            if !self.cores[i].sanity_check() {
                proof {
                    if self@.wf() {
                        assert(self@.cores[i as int].wf());
                    }
                }
                return false;
            }
            i = i + 1;
        }
        true
    }
}

impl SystemView {
    /// Whether the protocol table of every cache has an entry for every slot of the
    /// tag array.
    pub open spec fn tables_fit(self) -> bool {
        forall|i: int|
            0 <= i < self.cores.len() ==> (#[trigger] self.cores[i]).cache.protocol.slots()
                == self.cores[i].cache.tags.len()
    }

    /// Whether in every cache the table of the protocol carries, in every slot that
    /// stores a tag, that tag.
    pub open spec fn tables_match(self) -> bool {
        forall|i: int| 0 <= i < self.cores.len() ==> (#[trigger] self.cores[i]).cache.tables_match()
    }
}

fn contains(ids: &Vec<usize>, id: usize) -> (found: bool)
    ensures
        found == ids@.contains(id),
{
    let mut i: usize = 0;
    while i < ids.len()
        invariant
            i <= ids@.len(),
            forall|j: int| 0 <= j < i ==> ids@[j] != id,
        decreases ids@.len() - i,
    {
        if ids[i] == id {
            return true;
        }
        i = i + 1;
    }
    false
}

/// Where none are dead, all of the order are kept.
pub proof fn lemma_kept_all(order: Seq<usize>, dead: Seq<usize>, k: nat)
    requires
        dead.len() == 0,
        k <= order.len(),
    ensures
        kept(order, dead, k) == order.take(k as int),
    decreases k,
{
    if k > 0 {
        lemma_kept_all(order, dead, (k - 1) as nat);
        assert(order.take(k as int) =~= order.take(k - 1).push(order[k - 1]));
    } else {
        assert(order.take(0) =~= Seq::<usize>::empty());
    }
}

} // verus!
