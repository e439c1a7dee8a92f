use cacher::analyzer::Analyzer;
use cacher::geometry::check_args;
use cacher::protocol::ProtocolKind;
use cacher::record::{Label, Record, RecordStream};
use cacher::system::{Optimizations, System};

struct ProgramArgs {
    /// Cache coherence protocol
    protocol: ProtocolKind,

    /// The traces, one for each core
    input: Vec<Vec<Record>>,

    /// Cache size in bytes
    cache_size: usize,

    /// Cache associativity
    associativity: usize,

    /// Cache block size in bytes
    block_size: usize,
}

impl ProgramArgs {
    fn new(
        input: Vec<Vec<Record>>,
        protocol: ProtocolKind,
        cache_size: usize,
        associativity: usize,
        block_size: usize,
    ) -> Self {
        ProgramArgs {
            protocol,
            input,
            cache_size,
            associativity,
            block_size,
        }
    }
}

fn load(addr: u32) -> Record {
    Record {
        label: Label::Load,
        value: addr,
    }
}

fn store(addr: u32) -> Record {
    Record {
        label: Label::Store,
        value: addr,
    }
}

fn other(cycles: u32) -> Record {
    Record {
        label: Label::Other,
        value: cycles,
    }
}

fn run(args: ProgramArgs) -> Analyzer {
    assert!(check_args(args.cache_size, args.associativity, args.block_size).is_ok());
    let record_streams: Vec<RecordStream> = args
        .input
        .into_iter()
        .enumerate()
        .map(|(id, records)| RecordStream::new(format!("{}.data", id), records, false))
        .collect();

    let mut system = System::new(
        &args.protocol,
        args.cache_size,
        args.associativity,
        args.block_size,
        record_streams,
        Optimizations::default(),
    );

    loop {
        assert!(system.has_room());
        if system.update() {
            break;
        }
    }
    assert!(system.sanity_check());

    let mut analyzer = Analyzer::new();
    assert!(analyzer.can_digest(&system));
    analyzer.digest(system);

    analyzer
}

fn sequence() -> Vec<Record> {
    vec![
        load(0x10),
        other(10),
        store(0x14),
        load(0x10),
        store(0x10),
        load(0x12),
        load(0x11),
        store(0x14),
        load(0x13),
        store(0x10),
    ]
}

#[test]
fn read_miss() {
    let args = ProgramArgs::new(vec![vec![load(0x100)]], ProtocolKind::Dragon, 16, 1, 4);

    let analyzer = run(args);
    assert_eq!(analyzer.stats.exec_cycles, 102);
    assert_eq!(analyzer.stats.bus_traffic, 4);
    assert_eq!(analyzer.stats.bus_num_invalid_or_upd, 0);
    assert_eq!(analyzer.stats.cache.num_private_data_access, 1);
    assert_eq!(analyzer.stats.cache.num_shared_data_access, 0);
    assert_eq!(analyzer.stats.cores[0].cache.num_data_cache_hits, 0);
    assert_eq!(analyzer.stats.cores[0].cache.num_data_cache_misses, 1);
}

#[test]
fn read_hit() {
    let args = ProgramArgs::new(
        vec![vec![load(0x100), load(0x100)]],
        ProtocolKind::Dragon,
        16,
        1,
        4,
    );

    let analyzer = run(args);
    assert_eq!(analyzer.stats.exec_cycles, 103);
    assert_eq!(analyzer.stats.bus_traffic, 4);
    assert_eq!(analyzer.stats.bus_num_invalid_or_upd, 0);
    assert_eq!(analyzer.stats.cache.num_private_data_access, 2);
    assert_eq!(analyzer.stats.cache.num_shared_data_access, 0);
    assert_eq!(analyzer.stats.cores[0].cache.num_data_cache_hits, 1);
    assert_eq!(analyzer.stats.cores[0].cache.num_data_cache_misses, 1);
}

#[test]
fn write_miss() {
    let args = ProgramArgs::new(vec![vec![store(0x100)]], ProtocolKind::Dragon, 16, 1, 4);

    let analyzer = run(args);
    assert_eq!(analyzer.stats.exec_cycles, 104);
    assert_eq!(analyzer.stats.bus_traffic, 4);
    assert_eq!(analyzer.stats.bus_num_invalid_or_upd, 0);
    assert_eq!(analyzer.stats.cache.num_private_data_access, 1);
    assert_eq!(analyzer.stats.cache.num_shared_data_access, 0);
    assert_eq!(analyzer.stats.cores[0].cache.num_data_cache_hits, 0);
    assert_eq!(analyzer.stats.cores[0].cache.num_data_cache_misses, 1);
}

#[test]
fn write_hit() {
    let args = ProgramArgs::new(
        vec![vec![store(0x100), store(0x100)]],
        ProtocolKind::Dragon,
        16,
        1,
        4,
    );

    let analyzer = run(args);
    assert_eq!(analyzer.stats.exec_cycles, 105);
    assert_eq!(analyzer.stats.bus_traffic, 4);
    assert_eq!(analyzer.stats.bus_num_invalid_or_upd, 0);
    assert_eq!(analyzer.stats.cache.num_private_data_access, 1);
    assert_eq!(analyzer.stats.cache.num_shared_data_access, 0);
    assert_eq!(analyzer.stats.cores[0].cache.num_data_cache_hits, 1);
    assert_eq!(analyzer.stats.cores[0].cache.num_data_cache_misses, 1);
}

#[test]
fn evict() {
    let args = ProgramArgs::new(
        vec![vec![load(0x100), load(0x104), load(0x108)]],
        ProtocolKind::Dragon,
        16,
        1,
        4,
    );

    let analyzer = run(args);
    assert_eq!(analyzer.stats.exec_cycles, 304);
    assert_eq!(analyzer.stats.bus_traffic, 12);
    assert_eq!(analyzer.stats.bus_num_invalid_or_upd, 0);
    assert_eq!(analyzer.stats.cache.num_private_data_access, 3);
    assert_eq!(analyzer.stats.cache.num_shared_data_access, 0);
    assert_eq!(analyzer.stats.cores[0].cache.num_data_cache_hits, 0);
    assert_eq!(analyzer.stats.cores[0].cache.num_data_cache_misses, 3);
}

#[test]
fn sequence_16_1_4() {
    let args = ProgramArgs::new(vec![sequence()], ProtocolKind::Mesi, 16, 1, 4);

    let analyzer = run(args);
    assert_eq!(
        analyzer.stats.exec_cycles,
        1 + 101 + 10 + 102 + 101 + 101 + 1 + 101 + 101 + 101 + 102 + 101 + 101 + 102 + 3
    );
    assert_eq!(analyzer.stats.bus_traffic, 4 * 11);
    assert_eq!(analyzer.stats.bus_num_invalid_or_upd, 0);
    assert_eq!(analyzer.stats.cache.num_private_data_access, 8);
    assert_eq!(analyzer.stats.cache.num_shared_data_access, 0);
    assert_eq!(analyzer.stats.cores[0].cache.num_data_cache_hits, 1);
    assert_eq!(analyzer.stats.cores[0].cache.num_data_cache_misses, 8);
}

#[test]
fn sequence_16_2_4() {
    let args = ProgramArgs::new(vec![sequence()], ProtocolKind::Dragon, 16, 2, 4);

    let analyzer = run(args);
    assert_eq!(
        analyzer.stats.exec_cycles,
        1 + 101 + 10 + 102 + 1 + 1 + 101 + 101 + 101 + 101 + 102 + 101 + 102 + 3
    );
    assert_eq!(analyzer.stats.bus_traffic, 4 * 9);
    assert_eq!(analyzer.stats.bus_num_invalid_or_upd, 0);
    assert_eq!(analyzer.stats.cache.num_private_data_access, 8);
    assert_eq!(analyzer.stats.cache.num_shared_data_access, 0);
    assert_eq!(analyzer.stats.cores[0].cache.num_data_cache_hits, 2);
    assert_eq!(analyzer.stats.cores[0].cache.num_data_cache_misses, 7);
}

#[test]
fn sequence_16_4_4() {
    let args = ProgramArgs::new(vec![sequence()], ProtocolKind::Dragon, 16, 4, 4);

    let analyzer = run(args);
    assert_eq!(
        analyzer.stats.exec_cycles,
        1 + 101 + 10 + 102 + 1 + 1 + 101 + 1 + 101 + 101 + 102 + 1
    );
    assert_eq!(analyzer.stats.bus_traffic, 4 * 6);
    assert_eq!(analyzer.stats.bus_num_invalid_or_upd, 0);
    assert_eq!(analyzer.stats.cache.num_private_data_access, 6);
    assert_eq!(analyzer.stats.cache.num_shared_data_access, 0);
    assert_eq!(analyzer.stats.cores[0].cache.num_data_cache_hits, 4);
    assert_eq!(analyzer.stats.cores[0].cache.num_data_cache_misses, 5);
}
