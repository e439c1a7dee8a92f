use crate::logger::LogEntry;
use crate::record::Label;
use vstd::prelude::*;

verus! {

/// Why a log gives no figures.
#[derive(Debug)]
pub struct AnalyzerError {
    m: String,
}

impl AnalyzerError {
    /// What the error says.
    pub closed spec fn text(&self) -> Seq<char> {
        self.m@
    }

    pub fn new(m: &str) -> (error: AnalyzerError)
        ensures
            error.text() == m@,
    {
        AnalyzerError { m: m.to_owned() }
    }

    /// What the error says.
    pub fn message(&self) -> (m: &String)
        ensures
            m@ == self.text(),
    {
        &self.m
    }
}

/// The figures that a log gives.
#[derive(Debug)]
pub struct Stats {
    pub exec_cycles: usize,
    pub cores: Vec<CoreStats>,
    pub bus_traffic: usize,
    pub bus_num_invalid_or_upd: usize,
    pub num_private_data_access: usize,
    pub num_shared_data_access: usize,
}

/// The figures that a log gives of one core.
#[derive(Default, Clone, Debug)]
pub struct CoreStats {
    pub file_name: String,
    pub exec_cycles: usize,
    pub compute_cycles: usize,
    pub mem_ops: usize,
    pub idle_cycles: usize,
    pub num_data_cache_misses: usize,
    pub num_data_cache_hits: usize,
}

/// The figures of one core as a value.
pub struct CoreTally {
    pub file_name: Seq<char>,
    pub exec_cycles: int,
    pub compute_cycles: int,
    pub mem_ops: int,
    pub idle_cycles: int,
    pub num_data_cache_misses: int,
    pub num_data_cache_hits: int,
}

/// The figures of a log as a value, with the number of accesses to data that the log
/// has named since the last step.
#[verifier::ext_equal]
pub struct Tally {
    pub exec_cycles: int,
    pub cores: Seq<CoreTally>,
    pub bus_traffic: int,
    pub bus_num_invalid_or_upd: int,
    pub num_private_data_access: int,
    pub num_shared_data_access: int,
    pub accesses: int,
}

impl View for CoreStats {
    type V = CoreTally;

    open spec fn view(&self) -> CoreTally {
        CoreTally {
            file_name: self.file_name@,
            exec_cycles: self.exec_cycles as int,
            compute_cycles: self.compute_cycles as int,
            mem_ops: self.mem_ops as int,
            idle_cycles: self.idle_cycles as int,
            num_data_cache_misses: self.num_data_cache_misses as int,
            num_data_cache_hits: self.num_data_cache_hits as int,
        }
    }
}

impl Stats {
    /// The figures as a value, `accesses` being the accesses since the last step.
    pub open spec fn tally(&self, accesses: int) -> Tally {
        Tally {
            exec_cycles: self.exec_cycles as int,
            cores: Seq::new(self.cores@.len(), |i: int| self.cores@[i]@),
            bus_traffic: self.bus_traffic as int,
            bus_num_invalid_or_upd: self.bus_num_invalid_or_upd as int,
            num_private_data_access: self.num_private_data_access as int,
            num_shared_data_access: self.num_shared_data_access as int,
            accesses,
        }
    }
}

impl CoreTally {
    /// A core of which nothing is known.
    pub open spec fn zero() -> CoreTally {
        CoreTally {
            file_name: Seq::empty(),
            exec_cycles: 0,
            compute_cycles: 0,
            mem_ops: 0,
            idle_cycles: 0,
            num_data_cache_misses: 0,
            num_data_cache_hits: 0,
        }
    }

    /// Whether every figure fits a machine word.
    pub open spec fn fits(self) -> bool {
        &&& self.exec_cycles <= usize::MAX
        &&& self.compute_cycles <= usize::MAX
        &&& self.mem_ops <= usize::MAX
        &&& self.idle_cycles <= usize::MAX
        &&& self.num_data_cache_misses <= usize::MAX
        &&& self.num_data_cache_hits <= usize::MAX
    }
}

impl Tally {
    /// The figures before any entry but the first: `num_cores` cores of which nothing
    /// is known.
    pub open spec fn start(num_cores: nat) -> Tally {
        Tally {
            exec_cycles: 0,
            cores: Seq::new(num_cores, |i: int| CoreTally::zero()),
            bus_traffic: 0,
            bus_num_invalid_or_upd: 0,
            num_private_data_access: 0,
            num_shared_data_access: 0,
            accesses: 0,
        }
    }

    /// The core that an entry speaks of, if it speaks of one that the figures count.
    pub open spec fn core_of(entry: LogEntry) -> Option<usize> {
        match entry {
            LogEntry::InitCore(e) => Some(e.id),
            LogEntry::InstrFetch(e) => Some(e.id),
            LogEntry::CoreHalt(e) => Some(e.id),
            LogEntry::CoreStallMemory(e) => Some(e.id),
            LogEntry::CacheMiss(e) => Some(e.id),
            LogEntry::CacheHit(e) => Some(e.id),
            _ => None,
        }
    }

    /// The figures of a core after an entry that speaks of it.
    pub open spec fn core_after(self, core: CoreTally, entry: LogEntry) -> CoreTally {
        match entry {
            LogEntry::InitCore(e) => CoreTally { file_name: e.file_name@, ..core },
            LogEntry::InstrFetch(e) => match e.type_ {
                Label::Other => CoreTally {
                    compute_cycles: core.compute_cycles + e.arg,
                    ..core
                },
                _ => CoreTally { mem_ops: core.mem_ops + 1, ..core },
            },
            LogEntry::CoreHalt(_) => CoreTally { exec_cycles: self.exec_cycles, ..core },
            LogEntry::CoreStallMemory(_) => CoreTally {
                idle_cycles: core.idle_cycles + 1,
                ..core
            },
            LogEntry::CacheMiss(_) => CoreTally {
                num_data_cache_misses: core.num_data_cache_misses + 1,
                ..core
            },
            LogEntry::CacheHit(_) => CoreTally {
                num_data_cache_hits: core.num_data_cache_hits + 1,
                ..core
            },
            _ => core,
        }
    }

    /// The figures after one more entry. A step names the cycle and starts the count
    /// of accesses anew. A transaction that finishes counts its bytes, and counts as
    /// invalidating or updating if it is an exclusive read or an update. An access to
    /// private or to shared data is counted as such. An entry that speaks of a core
    /// changes the figures of that core.
    pub open spec fn absorbed(self, entry: LogEntry) -> Tally {
        match entry {
            LogEntry::Step(e) => Tally { exec_cycles: e.clk as int, accesses: 0, ..self },
            LogEntry::BusFinish(e) => Tally {
                bus_traffic: self.bus_traffic + e.action.size(),
                bus_num_invalid_or_upd: self.bus_num_invalid_or_upd + if e.action.invalidates_or_updates() {
                    1int
                } else {
                    0int
                },
                ..self
            },
            LogEntry::CachePrivateAccess(_) => Tally {
                num_private_data_access: self.num_private_data_access + 1,
                accesses: self.accesses + 1,
                ..self
            },
            LogEntry::CacheSharedAccess(_) => Tally {
                num_shared_data_access: self.num_shared_data_access + 1,
                accesses: self.accesses + 1,
                ..self
            },
            _ => match Self::core_of(entry) {
                Some(id) => Tally {
                    cores: self.cores.update(
                        id as int,
                        self.core_after(self.cores[id as int], entry),
                    ),
                    ..self
                },
                None => self,
            },
        }
    }

    /// Whether the figures are those of a log that is in order: every figure fits a
    /// machine word, and fewer than four accesses to data are named since the last
    /// step.
    pub open spec fn fits(self) -> bool {
        &&& self.exec_cycles <= usize::MAX
        &&& self.bus_traffic <= usize::MAX
        &&& self.bus_num_invalid_or_upd <= usize::MAX
        &&& self.num_private_data_access <= usize::MAX
        &&& self.num_shared_data_access <= usize::MAX
        &&& self.accesses < 4
        &&& forall|i: int| 0 <= i < self.cores.len() ==> (#[trigger] self.cores[i]).fits()
    }

    /// Whether one more entry leaves the log in order: it speaks of no core but those
    /// that the log began with, and the figures after it are in order.
    pub open spec fn absorbs(self, entry: LogEntry) -> bool {
        &&& match Self::core_of(entry) {
            Some(id) => id < self.cores.len(),
            None => true,
        }
        &&& self.absorbed(entry).fits()
    }
}

/// The number of cores that a log begins with, where its first entry says so.
pub open spec fn cores_of(entries: Seq<LogEntry>) -> Option<usize> {
    if entries.len() == 0 {
        None
    } else {
        match entries[0] {
            LogEntry::InitSystem(s) => Some(s.num_cores),
            _ => None,
        }
    }
}

/// The figures after the first `k` entries of a log that begins as it should.
pub open spec fn tallied(entries: Seq<LogEntry>, k: nat) -> Tally
    decreases k,
{
    if k <= 1 {
        Tally::start(cores_of(entries).unwrap() as nat)
    } else {
        tallied(entries, (k - 1) as nat).absorbed(entries[k - 1])
    }
}

/// Whether the first `k` entries of a log that begins as it should are in order.
pub open spec fn sound(entries: Seq<LogEntry>, k: nat) -> bool
    decreases k,
{
    k <= 1 || (sound(entries, (k - 1) as nat) && tallied(entries, (k - 1) as nat).absorbs(
        entries[k - 1],
    ))
}

/// Whether a log can be analyzed: it is empty or begins with anything but the entry
/// that describes the system, which gives an error, or it is in order throughout.
pub open spec fn analyzable(entries: Seq<LogEntry>) -> bool {
    cores_of(entries) is Some ==> sound(entries, entries.len())
}

proof fn lemma_sound_prefix(entries: Seq<LogEntry>, n: nat, k: nat)
    requires
        sound(entries, n),
        k <= n,
    ensures
        sound(entries, k),
    decreases n,
{
    if k < n {
        lemma_sound_prefix(entries, (n - 1) as nat, k);
    }
}

fn sum_of(total: usize, more: usize) -> (sum: Option<usize>)
    ensures
        match sum {
            Some(s) => s == total + more,
            None => total + more > usize::MAX,
        },
{
    if more <= usize::MAX - total {
        Some(total + more)
    } else {
        None
    }
}

pub struct Analyzer {}

impl Analyzer {
    /// Goes through a log that begins as it should and gives its figures, or nothing
    /// where the log is not in order.
    fn tally(entries: &Vec<LogEntry>, num_cores: usize) -> (stats: Option<Stats>)
        requires
            cores_of(entries@) == Some(num_cores),
        ensures
            match stats {
                Some(s) => sound(entries@, entries@.len()) && s.tally(
                    tallied(entries@, entries@.len()).accesses,
                ) == tallied(entries@, entries@.len()),
                None => !sound(entries@, entries@.len()),
            },
    {
        let mut stats = Stats {
            exec_cycles: 0,
            cores: Vec::new(),
            bus_traffic: 0,
            bus_num_invalid_or_upd: 0,
            num_private_data_access: 0,
            num_shared_data_access: 0,
        };
        let mut c: usize = 0;
        while c < num_cores
            invariant
                c <= num_cores,
                stats.cores@.len() == c,
                forall|i: int| 0 <= i < c ==> (#[trigger] stats.cores@[i])@ == CoreTally::zero(),
                stats.exec_cycles == 0,
                stats.bus_traffic == 0,
                stats.bus_num_invalid_or_upd == 0,
                stats.num_private_data_access == 0,
                stats.num_shared_data_access == 0,
            decreases num_cores - c,
        {
            stats.cores.push(
                CoreStats {
                    file_name: String::new(),
                    exec_cycles: 0,
                    compute_cycles: 0,
                    mem_ops: 0,
                    idle_cycles: 0,
                    num_data_cache_misses: 0,
                    num_data_cache_hits: 0,
                },
            );
            c = c + 1;
        }
        assert(stats.tally(0).cores =~= Tally::start(num_cores as nat).cores);
        assert(stats.tally(0) == Tally::start(num_cores as nat));
        let mut accesses: usize = 0;
        let mut k: usize = 1;
        while k < entries.len()
            invariant
                1 <= k <= entries@.len(),
                cores_of(entries@) == Some(num_cores),
                accesses < 4,
                sound(entries@, k as nat),
                stats.tally(accesses as int) == tallied(entries@, k as nat),
                stats.cores@.len() == num_cores,
            decreases entries@.len() - k,
        {
            let ghost before = stats.tally(accesses as int);
            let ghost entry = entries@[k as int];
            assert(before.cores.len() == stats.cores@.len());
            let mut ok: bool = true;
            match &entries[k] {
                LogEntry::InitCore(e) => {
                    if e.id < stats.cores.len() {
                        stats.cores[e.id].file_name = e.file_name.clone();
                    } else {
                        proof {
                            assert(!before.absorbs(entry));
                        }
                        ok = false;
                    }
                },
                LogEntry::Step(e) => {
                    stats.exec_cycles = e.clk;
                    accesses = 0;
                },
                LogEntry::InstrFetch(e) => {
                    if e.id < stats.cores.len() {
                        match e.type_ {
                            Label::Load | Label::Store => {
                                match sum_of(stats.cores[e.id].mem_ops, 1) {
                                    Some(sum) => {
                                        stats.cores[e.id].mem_ops = sum;
                                    },
                                    None => {
                                        proof {
                                            assert(!before.absorbed(entry).cores[e.id as int].fits());
                                            assert(!before.absorbs(entry));
                                        }
                                        ok = false;
                                    },
                                }
                            },
                            Label::Other => {
                                match sum_of(stats.cores[e.id].compute_cycles, e.arg as usize) {
                                    Some(sum) => {
                                        stats.cores[e.id].compute_cycles = sum;
                                    },
                                    None => {
                                        proof {
                                            assert(!before.absorbed(entry).cores[e.id as int].fits());
                                            assert(!before.absorbs(entry));
                                        }
                                        ok = false;
                                    },
                                }
                            },
                        }
                    } else {
                        proof {
                            assert(!before.absorbs(entry));
                        }
                        ok = false;
                    }
                },
                LogEntry::CoreHalt(e) => {
                    if e.id < stats.cores.len() {
                        stats.cores[e.id].exec_cycles = stats.exec_cycles;
                    } else {
                        proof {
                            assert(!before.absorbs(entry));
                        }
                        ok = false;
                    }
                },
                LogEntry::CoreStallMemory(e) => {
                    if e.id < stats.cores.len() {
                        match sum_of(stats.cores[e.id].idle_cycles, 1) {
                            Some(sum) => {
                                stats.cores[e.id].idle_cycles = sum;
                            },
                            None => {
                                proof {
                                    assert(!before.absorbed(entry).cores[e.id as int].fits());
                                    assert(!before.absorbs(entry));
                                }
                                ok = false;
                            },
                        }
                    } else {
                        proof {
                            assert(!before.absorbs(entry));
                        }
                        ok = false;
                    }
                },
                LogEntry::CacheMiss(e) => {
                    if e.id < stats.cores.len() {
                        match sum_of(stats.cores[e.id].num_data_cache_misses, 1) {
                            Some(sum) => {
                                stats.cores[e.id].num_data_cache_misses = sum;
                            },
                            None => {
                                proof {
                                    assert(!before.absorbed(entry).cores[e.id as int].fits());
                                    assert(!before.absorbs(entry));
                                }
                                ok = false;
                            },
                        }
                    } else {
                        proof {
                            assert(!before.absorbs(entry));
                        }
                        ok = false;
                    }
                },
                LogEntry::CacheHit(e) => {
                    if e.id < stats.cores.len() {
                        match sum_of(stats.cores[e.id].num_data_cache_hits, 1) {
                            Some(sum) => {
                                stats.cores[e.id].num_data_cache_hits = sum;
                            },
                            None => {
                                proof {
                                    assert(!before.absorbed(entry).cores[e.id as int].fits());
                                    assert(!before.absorbs(entry));
                                }
                                ok = false;
                            },
                        }
                    } else {
                        proof {
                            assert(!before.absorbs(entry));
                        }
                        ok = false;
                    }
                },
                LogEntry::BusFinish(e) => {
                    let counts: bool = match e.action {
                        crate::bus::BusAction::BusUpdMem(_, _)
                        | crate::bus::BusAction::BusUpdShared(_, _)
                        | crate::bus::BusAction::BusRdXMem(_, _)
                        | crate::bus::BusAction::BusRdXShared(_, _) => true,
                        _ => false,
                    };
                    let size: usize = crate::bus::BusAction::extract_size(e.action);
                    match (
                        sum_of(stats.bus_num_invalid_or_upd, if counts {
                            1
                        } else {
                            0
                        }),
                        sum_of(stats.bus_traffic, size),
                    ) {
                        (Some(num), Some(traffic)) => {
                            stats.bus_num_invalid_or_upd = num;
                            stats.bus_traffic = traffic;
                        },
                        _ => {
                            proof {
                                assert(!before.absorbs(entry));
                            }
                            ok = false;
                        },
                    }
                },
                LogEntry::CachePrivateAccess(_) => {
                    match sum_of(stats.num_private_data_access, 1) {
                        Some(sum) => {
                            stats.num_private_data_access = sum;
                            accesses = accesses + 1;
                        },
                        None => {
                            proof {
                                assert(!before.absorbs(entry));
                            }
                            ok = false;
                        },
                    }
                },
                LogEntry::CacheSharedAccess(_) => {
                    match sum_of(stats.num_shared_data_access, 1) {
                        Some(sum) => {
                            stats.num_shared_data_access = sum;
                            accesses = accesses + 1;
                        },
                        None => {
                            proof {
                                assert(!before.absorbs(entry));
                            }
                            ok = false;
                        },
                    }
                },
                LogEntry::BusStart(_) => (),
                LogEntry::BusClear(_) => (),
                LogEntry::InitSystem(_) => (),
                LogEntry::CoreStallALU(_) => (),
            }
            if !ok || accesses >= 4 {
                proof {
                    if ok {
                        assert(before.absorbed(entry).accesses >= 4);
                    }
                    assert(!before.absorbs(entry));
                    if sound(entries@, entries@.len()) {
                        lemma_sound_prefix(entries@, entries@.len(), (k + 1) as nat);
                    }
                }
                return None;
            }
            proof {
                assert(stats.tally(accesses as int).cores =~= before.absorbed(entry).cores);
                assert(stats.tally(accesses as int) == before.absorbed(entry));
                assert(before.absorbed(entry).fits()) by {
                    assert forall|i: int| 0 <= i < stats.cores@.len() implies (
                    #[trigger] stats.tally(accesses as int).cores[i]).fits() by {
                        assert(stats.tally(accesses as int).cores[i] == stats.cores@[i]@);
                    }
                }
            }
            k = k + 1;
        }
        Some(stats)
    }

    /// Gives the figures of a log in order. A log gives none where it is empty or
    /// begins with anything but the entry that describes the system.
    pub fn extract_stats(entries: &Vec<LogEntry>) -> (result: Result<Stats, AnalyzerError>)
        requires
            analyzable(entries@),
        ensures
            match result {
                Ok(stats) => cores_of(entries@) is Some && stats.tally(
                    tallied(entries@, entries@.len()).accesses,
                ) == tallied(entries@, entries@.len()),
                Err(error) => cores_of(entries@) is None && error.text() == if entries@.len() == 0 {
                    "Logfile does not contain any entries."@
                } else {
                    "Invalid first log entry, expected InitSystem."@
                },
            },
    {
        if entries.len() == 0 {
            return Err(AnalyzerError::new("Logfile does not contain any entries."));
        }
        let num_cores: usize = match &entries[0] {
            LogEntry::InitSystem(s) => s.num_cores,
            _ => {
                return Err(AnalyzerError::new("Invalid first log entry, expected InitSystem."));
            },
        };
        match Analyzer::tally(entries, num_cores) {
            Some(stats) => Ok(stats),
            None => {
                // not reached: the log is in order
                Err(AnalyzerError::new(""))
            },
        }
    }

    /// Tells whether a log can be analyzed.
    pub fn can_extract(entries: &Vec<LogEntry>) -> (ok: bool)
        ensures
            ok == analyzable(entries@),
    {
        if entries.len() == 0 {
            return true;
        }
        let num_cores: usize = match &entries[0] {
            LogEntry::InitSystem(s) => s.num_cores,
            _ => {
                return true;
            },
        };
        Analyzer::tally(entries, num_cores).is_some()
    }
}

} // verus!
