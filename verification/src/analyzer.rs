use crate::bus::Bus;
use crate::cache::{Cache, CacheStats};
use crate::cpu::{Core, CoreStats, CoreStatsView, CoreView};
use crate::system::System;
use vstd::prelude::*;

verus! {

/// The figures of a simulation.
#[derive(Debug, Default)]
pub struct Stats {
    pub exec_cycles: usize,
    pub cores: Vec<CoreStats>,
    pub bus_traffic: usize,
    pub bus_num_invalid_or_upd: usize,
    /// The counts of all caches, added up.
    pub cache: CacheStats,
}

/// The figures of a simulation as a value.
#[verifier::ext_equal]
pub struct StatsView {
    pub exec_cycles: usize,
    pub cores: Seq<CoreStatsView>,
    pub bus_traffic: usize,
    pub bus_num_invalid_or_upd: usize,
    pub cache: CacheStats,
}

impl View for Stats {
    type V = StatsView;

    open spec fn view(&self) -> StatsView {
        StatsView {
            exec_cycles: self.exec_cycles,
            cores: Seq::new(self.cores@.len(), |i: int| self.cores@[i]@),
            bus_traffic: self.bus_traffic,
            bus_num_invalid_or_upd: self.bus_num_invalid_or_upd,
            cache: self.cache,
        }
    }
}

impl CacheStats {
    /// Whether the counts of `other` can be added to these.
    pub open spec fn fits(self, other: CacheStats) -> bool {
        &&& self.num_data_cache_misses + other.num_data_cache_misses <= usize::MAX
        &&& self.num_data_cache_hits + other.num_data_cache_hits <= usize::MAX
        &&& self.num_private_data_access + other.num_private_data_access <= usize::MAX
        &&& self.num_shared_data_access + other.num_shared_data_access <= usize::MAX
    }

    /// These counts and those of `other`, added up.
    pub open spec fn plus(self, other: CacheStats) -> CacheStats {
        CacheStats {
            num_data_cache_misses: (self.num_data_cache_misses + other.num_data_cache_misses) as usize,
            num_data_cache_hits: (self.num_data_cache_hits + other.num_data_cache_hits) as usize,
            num_private_data_access: (self.num_private_data_access
                + other.num_private_data_access) as usize,
            num_shared_data_access: (self.num_shared_data_access
                + other.num_shared_data_access) as usize,
        }
    }
}

impl StatsView {
    /// The figures after a cache has reported: its counts stand with its core and are
    /// added to the counts of all caches.
    pub open spec fn with_cache(self, core_id: int, counts: CacheStats) -> StatsView {
        StatsView {
            cores: self.cores.update(
                core_id,
                CoreStatsView { cache: counts, ..self.cores[core_id] },
            ),
            cache: self.cache.plus(counts),
            ..self
        }
    }

    /// The figures after a core has reported: its counts and those of its cache stand
    /// with the core, and the counts of its cache are added to those of all caches.
    pub open spec fn with_core(self, core: CoreView) -> StatsView {
        StatsView {
            cores: self.cores.update(
                core.id as int,
                CoreStatsView { cache: self.cores[core.id as int].cache, ..core.stats },
            ),
            ..self
        }.with_cache(core.id as int, core.cache.stats)
    }

    /// Whether a core can report: it has its place among the cores, and the counts of
    /// its cache can be added to those of all caches.
    pub open spec fn takes(self, core: CoreView) -> bool {
        core.id < self.cores.len() && self.cache.fits(core.cache.stats)
    }

    /// The figures after the first `k` cores have reported.
    pub open spec fn with_cores(self, cores: Seq<CoreView>, k: nat) -> StatsView
        decreases k,
    {
        if k == 0 {
            self
        } else {
            self.with_cores(cores, (k - 1) as nat).with_core(cores[k - 1])
        }
    }

    /// Whether the first `k` cores can report one after the other.
    pub open spec fn takes_all(self, cores: Seq<CoreView>, k: nat) -> bool
        decreases k,
    {
        k == 0 || (self.takes_all(cores, (k - 1) as nat) && self.with_cores(
            cores,
            (k - 1) as nat,
        ).takes(cores[k - 1]))
    }

    /// The figures with places for `n` more cores, of which nothing is known yet.
    pub open spec fn with_places(self, n: nat) -> StatsView {
        StatsView {
            cores: self.cores + Seq::new(n, |i: int| CoreStatsView::zero(Seq::empty())),
            ..self
        }
    }
}

/// What can report its figures.
pub trait Analyzable {
    /// Whether the figures can take the report.
    spec fn reportable(&self, stats: StatsView) -> bool;

    /// The figures after the report.
    spec fn reported(&self, stats: StatsView) -> StatsView;

    /// Enters the figures of `self` into `stats`.
    fn report(&self, stats: &mut Stats)
        requires
            self.reportable(old(stats)@),
        ensures
            final(stats)@ == self.reported(old(stats)@),
    ;

    /// Tells whether the figures can take the report.
    fn can_report(&self, stats: &Stats) -> (ok: bool)
        ensures
            ok == self.reportable(stats@),
    ;
}

impl Analyzable for Bus {
    open spec fn reportable(&self, stats: StatsView) -> bool {
        true
    }

    open spec fn reported(&self, stats: StatsView) -> StatsView {
        StatsView {
            bus_traffic: self@.traffic,
            bus_num_invalid_or_upd: self@.num_invalid_or_upd,
            ..stats
        }
    }

    fn report(&self, stats: &mut Stats) {
        stats.bus_traffic = self.traffic();
        stats.bus_num_invalid_or_upd = self.num_invalid_or_upd();
    }

    fn can_report(&self, stats: &Stats) -> (ok: bool) {
        true
    }
}

fn fits(total: &CacheStats, counts: &CacheStats) -> (ok: bool)
    ensures
        ok == total.fits(*counts),
{
    counts.num_data_cache_misses <= usize::MAX - total.num_data_cache_misses
        && counts.num_data_cache_hits <= usize::MAX - total.num_data_cache_hits
        && counts.num_private_data_access <= usize::MAX - total.num_private_data_access
        && counts.num_shared_data_access <= usize::MAX - total.num_shared_data_access
}

fn plus(total: &CacheStats, counts: &CacheStats) -> (sum: CacheStats)
    requires
        total.fits(*counts),
    ensures
        sum == total.plus(*counts),
{
    CacheStats {
        num_data_cache_misses: total.num_data_cache_misses + counts.num_data_cache_misses,
        num_data_cache_hits: total.num_data_cache_hits + counts.num_data_cache_hits,
        num_private_data_access: total.num_private_data_access + counts.num_private_data_access,
        num_shared_data_access: total.num_shared_data_access + counts.num_shared_data_access,
    }
}

impl Analyzable for Cache {
    open spec fn reportable(&self, stats: StatsView) -> bool {
        self@.core_id < stats.cores.len() && stats.cache.fits(self@.stats)
    }

    open spec fn reported(&self, stats: StatsView) -> StatsView {
        stats.with_cache(self@.core_id as int, self@.stats)
    }

    fn report(&self, stats: &mut Stats) {
        let counts: CacheStats = self.stats();
        let id: usize = self.core_id();
        stats.cores[id].cache = counts;
        stats.cache = plus(&stats.cache, &counts);
        assert(stats@.cores =~= old(stats)@.with_cache(id as int, counts).cores);
    }

    fn can_report(&self, stats: &Stats) -> (ok: bool) {
        let counts: CacheStats = self.stats();
        self.core_id() < stats.cores.len() && fits(&stats.cache, &counts)
    }
}

impl Analyzable for Core {
    open spec fn reportable(&self, stats: StatsView) -> bool {
        stats.takes(self@)
    }

    open spec fn reported(&self, stats: StatsView) -> StatsView {
        stats.with_core(self@)
    }

    fn report(&self, stats: &mut Stats) {
        let own: CoreStats = self.stats();
        let id: usize = self.id();
        let counts: CacheStats = own.cache;
        stats.cores[id].file_name = own.file_name;
        stats.cores[id].exec_cycles = own.exec_cycles;
        stats.cores[id].compute_cycles = own.compute_cycles;
        stats.cores[id].mem_ops = own.mem_ops;
        stats.cores[id].idle_cycles = own.idle_cycles;
        stats.cores[id].num_instructions = own.num_instructions;
        stats.cores[id].load_instructions = own.load_instructions;
        stats.cores[id].store_instructions = own.store_instructions;
        stats.cores[id].cache = counts;
        stats.cache = plus(&stats.cache, &counts);
        assert(stats@.cores =~= old(stats)@.with_core(self@).cores);
    }

    fn can_report(&self, stats: &Stats) -> (ok: bool) {
        let own: CoreStats = self.stats();
        self.id() < stats.cores.len() && fits(&stats.cache, &own.cache)
    }
}

impl Analyzable for System {
    open spec fn reportable(&self, stats: StatsView) -> bool {
        &&& stats.cores.len() + self@.cores.len() <= usize::MAX
        &&& stats.with_places(self@.cores.len()).takes_all(self@.cores, self@.cores.len())
    }

    open spec fn reported(&self, stats: StatsView) -> StatsView {
        let filled = StatsView { exec_cycles: self@.clk, ..stats }.with_places(
            self@.cores.len(),
        ).with_cores(self@.cores, self@.cores.len());
        StatsView {
            bus_traffic: self@.bus.traffic,
            bus_num_invalid_or_upd: self@.bus.num_invalid_or_upd,
            ..filled
        }
    }

    fn report(&self, stats: &mut Stats) {
        let n: usize = self.num_cores();
        let ghost cores = self@.cores;
        let ghost base = StatsView { exec_cycles: self@.clk, ..old(stats)@ }.with_places(n as nat);
        stats.exec_cycles = self.clock();
        let mut i: usize = 0;
        while i < n
            invariant
                i <= n,
                old(stats)@.cores.len() + n <= usize::MAX,
                stats@ == (StatsView { exec_cycles: self@.clk, ..old(stats)@ }).with_places(
                    i as nat,
                ),
            decreases n - i,
        {
            let ghost prev = stats@;
            stats.cores.push(
                CoreStats {
                    file_name: String::new(),
                    exec_cycles: 0,
                    compute_cycles: 0,
                    mem_ops: 0,
                    idle_cycles: 0,
                    num_instructions: 0,
                    load_instructions: 0,
                    store_instructions: 0,
                    cache: CacheStats {
                        num_data_cache_misses: 0,
                        num_data_cache_hits: 0,
                        num_private_data_access: 0,
                        num_shared_data_access: 0,
                    },
                },
            );
            i = i + 1;
            proof {
                let want = (StatsView { exec_cycles: self@.clk, ..old(stats)@ }).with_places(
                    i as nat,
                );
                assert(stats@.cores =~= prev.cores.push(CoreStatsView::zero(Seq::empty())));
                assert(prev.cores.len() == old(stats)@.cores.len() + i - 1);
                assert(stats@.cores =~= want.cores);
            }
        }
        proof {
            lemma_takes_all(old(stats)@.with_places(n as nat), base, cores, n as nat);
        }
        let mut k: usize = 0;
        while k < n
            invariant
                k <= n,
                n == cores.len(),
                cores == self@.cores,
                base.takes_all(cores, n as nat),
                stats@ == base.with_cores(cores, k as nat),
            decreases n - k,
        {
            proof {
                lemma_takes_prefix(base, cores, n as nat, (k + 1) as nat);
            }
            self.core_at(k).report(stats);
            k = k + 1;
        }
        self.bus().report(stats);
    }

    fn can_report(&self, stats: &Stats) -> (ok: bool) {
        let n: usize = self.num_cores();
        if stats.cores.len() > usize::MAX - n {
            return false;
        }
        let places: usize = stats.cores.len() + n;
        let ghost cores = self@.cores;
        let ghost base = stats@.with_places(n as nat);
        let mut total: CacheStats = stats.cache;
        let mut k: usize = 0;
        while k < n
            invariant
                k <= n,
                n == cores.len(),
                cores == self@.cores,
                base == stats@.with_places(n as nat),
                base.takes_all(cores, k as nat),
                base.with_cores(cores, k as nat).cache == total,
                base.with_cores(cores, k as nat).cores.len() == base.cores.len(),
                places == base.cores.len(),
            decreases n - k,
        {
            let own: CoreStats = self.core_at(k).stats();
            if self.core_at(k).id() >= places || !fits(&total, &own.cache) {
                proof {
                    lemma_takes_prefix_fails(base, cores, n as nat, (k + 1) as nat);
                }
                return false;
            }
            total = plus(&total, &own.cache);
            k = k + 1;
        }
        true
    }
}

/// Whether cores can report does not depend on the cycle that the figures name.
pub proof fn lemma_takes_all(stats: StatsView, other: StatsView, cores: Seq<CoreView>, k: nat)
    requires
        other == (StatsView { exec_cycles: other.exec_cycles, ..stats }),
    ensures
        other.takes_all(cores, k) == stats.takes_all(cores, k),
        other.with_cores(cores, k) == (StatsView {
            exec_cycles: other.exec_cycles,
            ..stats.with_cores(cores, k)
        }),
    decreases k,
{
    if k > 0 {
        lemma_takes_all(stats, other, cores, (k - 1) as nat);
    }
}

/// Where `n` cores can report, the first `k` of them can.
pub proof fn lemma_takes_prefix(stats: StatsView, cores: Seq<CoreView>, n: nat, k: nat)
    requires
        stats.takes_all(cores, n),
        k <= n,
    ensures
        stats.takes_all(cores, k),
    decreases n,
{
    if k < n {
        lemma_takes_prefix(stats, cores, (n - 1) as nat, k);
    }
}

/// Where the first `k` cores cannot report, `n` cannot.
pub proof fn lemma_takes_prefix_fails(stats: StatsView, cores: Seq<CoreView>, n: nat, k: nat)
    requires
        !stats.takes_all(cores, k),
        k <= n,
    ensures
        !stats.takes_all(cores, n),
{
    if stats.takes_all(cores, n) {
        lemma_takes_prefix(stats, cores, n, k);
    }
}

/// Collects the figures of a simulation.
#[derive(Default, Debug)]
pub struct Analyzer {
    pub stats: Stats,
}

impl Analyzer {
    pub fn new() -> (analyzer: Analyzer)
        ensures
            analyzer.stats@ == (StatsView {
                exec_cycles: 0,
                cores: Seq::empty(),
                bus_traffic: 0,
                bus_num_invalid_or_upd: 0,
                cache: CacheStats {
                    num_data_cache_misses: 0,
                    num_data_cache_hits: 0,
                    num_private_data_access: 0,
                    num_shared_data_access: 0,
                },
            }),
    {
        Analyzer {
            stats: Stats {
                exec_cycles: 0,
                cores: Vec::new(),
                bus_traffic: 0,
                bus_num_invalid_or_upd: 0,
                cache: CacheStats {
                    num_data_cache_misses: 0,
                    num_data_cache_hits: 0,
                    num_private_data_access: 0,
                    num_shared_data_access: 0,
                },
            },
        }
    }

    /// Takes the report of `logger`.
    pub fn digest<A: Analyzable>(&mut self, logger: A)
        requires
            logger.reportable(old(self).stats@),
        ensures
            final(self).stats@ == logger.reported(old(self).stats@),
    {
        logger.report(&mut self.stats);
    }

    /// Tells whether the report of `logger` can be taken.
    pub fn can_digest<A: Analyzable>(&self, logger: &A) -> (ok: bool)
        ensures
            ok == logger.reportable(self.stats@),
    {
        logger.can_report(&self.stats)
    }
}

} // verus!
