use cacher::alu::Alu;
use cacher::analyzer::{Analyzable, Analyzer};
use cacher::bus::{Bus, BusAction};
use cacher::cache::Cache;
use cacher::geometry::{check_args, floor_log2, power_of_two, GeometryError};
use cacher::log_analyzer::Analyzer as LogAnalyzer;
use cacher::logger::{
    BusFinish, CacheHit, CacheMiss, CachePrivateAccess, CacheSharedAccess, CoreHalt,
    CoreStallMemory, InitCore, InitSystem, InstrFetch, LogEntry, Step,
};
use cacher::lru::Lru;
use cacher::protocol::{LineState, ProtocolKind};
use cacher::record::{parse_record, Label, Record, RecordStream};
use cacher::system::{Optimizations, System};
use cacher::utils::{AddressLayout, Counter};

fn load(addr: u32) -> Record {
    Record {
        label: Label::Load,
        value: addr,
    }
}

fn store(addr: u32) -> Record {
    Record {
        label: Label::Store,
        value: addr,
    }
}

fn other(cycles: u32) -> Record {
    Record {
        label: Label::Other,
        value: cycles,
    }
}

fn system(
    protocol: ProtocolKind,
    shape: (usize, usize, usize),
    traces: Vec<Vec<Record>>,
    read_broadcast: bool,
) -> System {
    assert!(check_args(shape.0, shape.1, shape.2).is_ok());
    let streams: Vec<RecordStream> = traces
        .into_iter()
        .enumerate()
        .map(|(id, records)| RecordStream::new(format!("core_{}", id), records, true))
        .collect();
    System::new(
        &protocol,
        shape.0,
        shape.1,
        shape.2,
        streams,
        Optimizations { read_broadcast },
    )
}

fn compatible(x: LineState, y: LineState) -> bool {
    let exclusive = |s: LineState| s == LineState::Exclusive || s == LineState::Modified;
    (!exclusive(x) || y == LineState::Invalid)
        && (!exclusive(y) || x == LineState::Invalid)
        && !(x == LineState::SharedModified && y == LineState::SharedModified)
}

/// Runs the system to its end; after every cycle looks at the copies of `watched`.
fn finish(system: &mut System, watched: &[u32]) -> Analyzer {
    let mut cycles = 0;
    let mut last = (0, 0, 0);
    loop {
        assert!(system.has_room());
        let done = system.update();
        cycles += 1;
        assert!(cycles < 100_000);
        assert!(system.sanity_check());
        for addr in watched {
            for i in 0..system.num_cores() {
                for j in 0..system.num_cores() {
                    if i != j {
                        let x = system.core_at(i).cache().held(*addr);
                        let y = system.core_at(j).cache().held(*addr);
                        assert!(compatible(x, y), "{:?} beside {:?}", x, y);
                    }
                }
            }
        }
        let now = (
            system.clock(),
            system.bus().traffic(),
            system.bus().num_invalid_or_upd(),
        );
        assert!(now.0 > last.0 && now.1 >= last.1 && now.2 >= last.2);
        last = now;
        if done {
            break;
        }
    }
    let mut analyzer = Analyzer::new();
    assert!(analyzer.can_digest(&*system));
    system.report(&mut analyzer.stats);
    analyzer
}

#[test]
fn geometry_is_validated_in_order() {
    assert_eq!(check_args(4096, 2, 32), Ok(()));
    assert_eq!(check_args(16, 1, 4), Ok(()));
    assert_eq!(check_args(16, 4, 4), Ok(()));
    assert_eq!(check_args(0, 2, 32), Err(GeometryError::CacheSize));
    assert_eq!(check_args(4095, 3, 5), Err(GeometryError::CacheSize));
    assert_eq!(check_args(4096, 3, 5), Err(GeometryError::Associativity));
    assert_eq!(check_args(4096, 2, 24), Err(GeometryError::BlockSize));
    assert_eq!(check_args(16, 8, 4), Err(GeometryError::SetTooSmall));
    assert_eq!(check_args(16, 32, 4), Err(GeometryError::SetTooSmall));
}

#[test]
fn powers_and_logarithms() {
    assert!(!power_of_two(0));
    assert!(power_of_two(1));
    assert!(power_of_two(2));
    assert!(!power_of_two(3));
    assert!(power_of_two(4096));
    assert!(!power_of_two(4097));
    assert!(power_of_two(1 << 31));
    assert_eq!(floor_log2(0), 0);
    assert_eq!(floor_log2(1), 0);
    assert_eq!(floor_log2(2), 1);
    assert_eq!(floor_log2(3), 1);
    assert_eq!(floor_log2(8), 3);
    assert_eq!(floor_log2(1023), 9);
    assert_eq!(floor_log2(1024), 10);
}

#[test]
fn address_fields() {
    let direct = Cache::layout_for(16, 1, 4);
    assert_eq!(direct.index(0x100), 0);
    assert_eq!(direct.tag(0x100), 0x40);
    assert_eq!(direct.index(0x107), 3);
    assert_eq!(direct.tag(0x107), 0x41);
    assert_eq!(direct.nested_to_flat(3, 0), 3);

    let usual = Cache::layout_for(4096, 2, 32);
    assert_eq!(usual.index(0x817b08), (0x817b08 >> 3) & 63);
    assert_eq!(usual.tag(0x817b08), 0x817b08 >> 9);
    assert_eq!(usual.index(0xffff_ffff), 63);
    assert_eq!(usual.tag(0xffff_ffff), 0x7f_ffff);
    assert_eq!(usual.nested_to_flat(5, 1), 11);

    // one set only: no index field
    let one_set = Cache::layout_for(16, 4, 4);
    assert_eq!(one_set.index(0x1234_5678), 0);
    assert_eq!(one_set.tag(0x1234_5678), 0x1234_5678);

    // no tag field: the tag is zero
    let no_tag = AddressLayout::new(16, 16, 0, 8, 4);
    assert_eq!(no_tag.tag(0xffff_ffff), 0);
    assert_eq!(no_tag.index(0xffff_ffff), 0xffff);
    assert_eq!(no_tag.nested_to_flat(2, 1), 5);
}

#[test]
fn countdown() {
    let mut counter = Counter::new();
    assert!(!counter.update());
    assert_eq!(counter.value, 0);
    counter.value = 2;
    assert!(counter.update());
    assert!(counter.update());
    assert_eq!(counter.value, 0);
    assert!(!counter.update());
}

#[test]
fn arithmetic_unit_counts_down() {
    let mut alu = Alu::new();
    assert_eq!(alu.get(), 0);
    assert!(!alu.update());
    alu.set(2);
    alu.increase(1);
    assert_eq!(alu.get(), 3);
    assert!(alu.update());
    assert_eq!(alu.get(), 2);
    assert!(alu.update());
    assert!(alu.update());
    assert!(!alu.update());
    assert_eq!(alu.get(), 0);
}

#[test]
fn bus_prices_and_totals() {
    assert_eq!(Bus::price(&BusAction::BusRdMem(0, 32)), 100);
    assert_eq!(Bus::price(&BusAction::BusRdXMem(0, 32)), 100);
    assert_eq!(Bus::price(&BusAction::BusUpdMem(0, 4)), 100);
    assert_eq!(Bus::price(&BusAction::Flush(0, 64)), 100);
    assert_eq!(Bus::price(&BusAction::BusRdShared(0, 32)), 16);
    assert_eq!(Bus::price(&BusAction::BusRdXShared(0, 4)), 2);
    assert_eq!(Bus::price(&BusAction::BusUpdShared(0, 7)), 2);
    assert_eq!(Bus::price(&BusAction::BusUpdShared(0, 3)), 0);
    assert_eq!(BusAction::extract_addr(BusAction::BusUpdShared(0x55, 7)), 0x55);
    assert_eq!(BusAction::extract_size(BusAction::BusUpdShared(0x55, 7)), 7);

    let mut bus = Bus::new();
    assert!(!bus.occupied());
    bus.update();
    assert!(!bus.occupied());
    bus.put_on(3, BusAction::BusRdXShared(0x40, 8));
    assert!(bus.occupied());
    assert_eq!(bus.traffic(), 8);
    assert_eq!(bus.num_invalid_or_upd(), 1);
    let task = bus.task().unwrap();
    assert_eq!(task.issuer_id, 3);
    assert_eq!(task.remaining_cycles, 4);
    for left in [3, 2, 1, 0] {
        bus.update();
        assert_eq!(bus.task().unwrap().remaining_cycles, left);
    }
    bus.update();
    assert!(bus.task().is_none());
    bus.put_on(0, BusAction::BusRdMem(0x40, 8));
    assert_eq!(bus.traffic(), 16);
    assert_eq!(bus.num_invalid_or_upd(), 1);
    bus.active_task().unwrap().remaining_cycles = 7;
    assert_eq!(bus.task().unwrap().remaining_cycles, 7);
    bus.clear();
    assert!(!bus.occupied());
    assert_eq!(bus.traffic(), 16);
}

#[test]
fn least_recently_used() {
    let mut lru = Lru::new(2, 4);
    assert_eq!(lru.get_lru_idx(1), (1, 0));
    lru.update(1, 0);
    assert_eq!(lru.get_lru_idx(1), (1, 1));
    lru.update(1, 1);
    lru.update(1, 2);
    lru.update(1, 3);
    assert_eq!(lru.get_lru_idx(1), (1, 0));
    lru.update(1, 0);
    assert_eq!(lru.get_lru_idx(1), (1, 1));
    lru.eliminate(1, 3);
    assert_eq!(lru.get_lru_idx(1), (1, 3));
    assert_eq!(lru.get_lru_idx(0), (0, 0));
    // the way used last is never the next to go
    for way in [2, 0, 3, 1, 1, 0] {
        lru.update(0, way);
        assert_ne!(lru.get_lru_idx(0), (0, way));
    }
}

#[test]
fn records_are_parsed() {
    assert_eq!(Record::parse("0 0x100"), Some(load(0x100)));
    assert_eq!(Record::parse("1 0xff"), Some(store(0xff)));
    assert_eq!(Record::parse("2 0xa"), Some(other(10)));
    assert_eq!(Record::parse("2 10"), Some(other(16)));
    assert_eq!(Record::parse("7 0xFfFf_"), None);
    assert_eq!(Record::parse("00 0x1"), Some(other(1)));
    assert_eq!(Record::parse(" 0x1"), Some(other(1)));
    assert_eq!(Record::parse("0 0x0x0x12 rest"), Some(load(0x12)));
    assert_eq!(Record::parse("0 +1f"), Some(load(0x1f)));
    assert_eq!(Record::parse("0 0xffffffff"), Some(load(0xffff_ffff)));
    assert_eq!(Record::parse("0 0x0000000001"), Some(load(1)));
    assert_eq!(Record::parse("0 0x100000000"), None);
    assert_eq!(Record::parse("0"), None);
    assert_eq!(Record::parse(""), None);
    assert_eq!(Record::parse("0 "), None);
    assert_eq!(Record::parse("0  0x1"), None);
    assert_eq!(Record::parse("0 0x"), None);
    assert_eq!(Record::parse("0 +"), None);
    assert_eq!(Record::parse("0 -1"), None);
    assert_eq!(Record::parse("0 0xg"), None);
    assert_eq!(parse_record(b"1 0x10"), Some(store(0x10)));

    assert_eq!(Record::line_to_label("0"), Label::Load);
    assert_eq!(Record::line_to_label("1"), Label::Store);
    assert_eq!(Record::line_to_label("2"), Label::Other);
    assert_eq!(Record::line_to_label(""), Label::Other);
    assert_eq!(Record::line_to_value("0x1A"), Some(26));
    assert_eq!(Record::line_to_value("x1"), None);
    assert_eq!(Record::new("1", "0x20"), Some(store(0x20)));
    assert_eq!(Record::new("1", "zz"), None);
}

#[test]
fn record_stream_hands_out_in_order() {
    let mut stream = RecordStream::new(String::from("t"), vec![load(4), store(8)], true);
    assert_eq!(stream.line_count(), 2);
    assert_eq!(stream.file_name(), "t");
    assert_eq!(stream.peek(), Some(load(4)));
    assert_eq!(stream.next(), Some(load(4)));
    assert_eq!(stream.consumed(), 1);
    assert_eq!(stream.next(), Some(store(8)));
    assert_eq!(stream.next(), None);
    assert_eq!(stream.next(), None);
    assert_eq!(stream.consumed(), 2);
    let uncounted = RecordStream::new(String::from("u"), vec![load(4)], false);
    assert_eq!(uncounted.line_count(), 0);
    assert_eq!(uncounted.len(), 1);
}

#[test]
fn block_with_tag_zero_is_cached() {
    // with 4 sets of one block of 4 bytes the addresses 0 to 3 have the tag 0
    for protocol in [ProtocolKind::Mesi, ProtocolKind::Dragon] {
        for addr in [0x0, 0x1, 0x3] {
            let n = 4;
            let mut sys = system(protocol, (16, 1, 4), vec![vec![load(addr); n]], false);
            let analyzer = finish(&mut sys, &[addr]);
            assert_eq!(analyzer.stats.cores[0].cache.num_data_cache_misses, 1);
            assert_eq!(analyzer.stats.cores[0].cache.num_data_cache_hits, n - 1);
            assert_eq!(analyzer.stats.bus_traffic, 4);
            assert_eq!(analyzer.stats.bus_num_invalid_or_upd, 0);
            assert_eq!(analyzer.stats.exec_cycles, 101 + n);
            assert_eq!(sys.core_at(0).cache().held(addr), LineState::Exclusive);
        }
    }
}

#[test]
fn block_with_tag_zero_is_written_back() {
    // 0x1 and 0x11 share set 1; the first has the tag 0
    for protocol in [ProtocolKind::Mesi, ProtocolKind::Dragon] {
        let mut sys = system(
            protocol,
            (16, 1, 4),
            vec![vec![store(0x1), load(0x11), load(0x1)]],
            false,
        );
        let analyzer = finish(&mut sys, &[0x1, 0x11]);
        assert_eq!(analyzer.stats.cores[0].cache.num_data_cache_misses, 3);
        assert_eq!(analyzer.stats.cores[0].cache.num_data_cache_hits, 0);
        // three blocks read and the modified one written back
        assert_eq!(analyzer.stats.bus_traffic, 16);
        assert_eq!(sys.core_at(0).cache().held(0x1), LineState::Exclusive);
        assert_eq!(sys.core_at(0).cache().held(0x11), LineState::Invalid);
    }
}

#[test]
fn block_with_tag_zero_is_shared_and_invalidated() {
    // with 2 sets of 2 blocks of 16 bytes the address 0x4 has the tag 0
    for protocol in [ProtocolKind::Mesi, ProtocolKind::Dragon] {
        let mut sys = system(
            protocol,
            (64, 2, 16),
            vec![vec![load(0x4); 4], vec![load(0x4); 3]],
            false,
        );
        let analyzer = finish(&mut sys, &[0x4]);
        assert_eq!(analyzer.stats.bus_traffic, 32);
        assert_eq!(analyzer.stats.bus_num_invalid_or_upd, 0);
        assert_eq!(analyzer.stats.cache.num_data_cache_hits, 5);
        assert_eq!(analyzer.stats.cache.num_data_cache_misses, 2);
        assert_eq!(sys.core_at(0).cache().held(0x4), LineState::Shared);
        assert_eq!(sys.core_at(1).cache().held(0x4), LineState::Shared);
    }
    let mut sys = system(
        ProtocolKind::Mesi,
        (64, 2, 16),
        vec![
            vec![load(0x4), other(200), store(0x4)],
            vec![other(120), load(0x4)],
        ],
        false,
    );
    let analyzer = finish(&mut sys, &[0x4]);
    assert_eq!(sys.core_at(0).cache().held(0x4), LineState::Modified);
    assert_eq!(sys.core_at(1).cache().held(0x4), LineState::Invalid);
    assert_eq!(sys.core_at(1).cache().find(0x4), None);
    assert_eq!(analyzer.stats.bus_num_invalid_or_upd, 1);
    assert_eq!(analyzer.stats.bus_traffic, 16 + 16 + 4);

    let mut sys = system(
        ProtocolKind::Dragon,
        (64, 2, 16),
        vec![
            vec![load(0x4), other(200), store(0x4)],
            vec![other(120), load(0x4)],
        ],
        false,
    );
    let analyzer = finish(&mut sys, &[0x4]);
    assert_eq!(sys.core_at(0).cache().held(0x4), LineState::SharedModified);
    assert_eq!(sys.core_at(1).cache().held(0x4), LineState::Shared);
    assert_eq!(analyzer.stats.bus_num_invalid_or_upd, 1);
    assert_eq!(analyzer.stats.bus_traffic, 16 + 16 + 4);
}

#[test]
fn lone_core_loads_one_address() {
    for protocol in [ProtocolKind::Mesi, ProtocolKind::Dragon] {
        for shape in [(16, 1, 4), (64, 2, 16), (4096, 2, 32)] {
            let n = 5;
            let mut sys = system(protocol, shape, vec![vec![load(0x3000); n]], false);
            let analyzer = finish(&mut sys, &[0x3000]);
            assert_eq!(analyzer.stats.cores[0].cache.num_data_cache_misses, 1);
            assert_eq!(analyzer.stats.cores[0].cache.num_data_cache_hits, n - 1);
            assert_eq!(analyzer.stats.bus_traffic, shape.2);
            assert_eq!(analyzer.stats.exec_cycles, 101 + (n - 1) + 1);
            assert_eq!(analyzer.stats.cores[0].load_instructions, n);
            assert_eq!(analyzer.stats.cores[0].mem_ops, n);
            assert_eq!(analyzer.stats.cores[0].idle_cycles, 100);
        }
    }
}

#[test]
fn two_cores_read_one_address() {
    for protocol in [ProtocolKind::Mesi, ProtocolKind::Dragon] {
        let mut sys = system(
            protocol,
            (64, 2, 16),
            vec![vec![load(0x500)], vec![load(0x500)]],
            false,
        );
        let analyzer = finish(&mut sys, &[0x500]);
        assert_eq!(analyzer.stats.cores[0].cache.num_data_cache_misses, 1);
        assert_eq!(analyzer.stats.cores[1].cache.num_data_cache_misses, 1);
        assert_eq!(analyzer.stats.cores[0].cache.num_data_cache_hits, 0);
        assert_eq!(analyzer.stats.cores[1].cache.num_data_cache_hits, 0);
        assert_eq!(sys.core_at(0).cache().held(0x500), LineState::Shared);
        assert_eq!(sys.core_at(1).cache().held(0x500), LineState::Shared);
        assert_eq!(analyzer.stats.bus_traffic, 32);
        assert_eq!(analyzer.stats.cache.num_private_data_access, 1);
        assert_eq!(analyzer.stats.cache.num_shared_data_access, 1);
        // the first read takes 100 cycles from memory, the second 2 * (16 / 4) from the
        // other cache
        assert_eq!(analyzer.stats.exec_cycles, 1 + 100 + 1 + 8 + 1);

        // more reads hit and add nothing to the traffic
        let mut sys = system(
            protocol,
            (64, 2, 16),
            vec![vec![load(0x500); 4], vec![load(0x500); 3]],
            false,
        );
        let analyzer = finish(&mut sys, &[0x500]);
        assert_eq!(analyzer.stats.bus_traffic, 32);
        assert_eq!(analyzer.stats.bus_num_invalid_or_upd, 0);
        assert_eq!(analyzer.stats.cores[0].cache.num_data_cache_hits, 3);
        assert_eq!(analyzer.stats.cores[1].cache.num_data_cache_hits, 2);
        assert_eq!(analyzer.stats.cache.num_data_cache_hits, 5);
        assert_eq!(analyzer.stats.cache.num_data_cache_misses, 2);
        assert_eq!(sys.core_at(0).cache().held(0x500), LineState::Shared);
        assert_eq!(sys.core_at(1).cache().held(0x500), LineState::Shared);
    }
}

#[test]
fn shuffle_breaks_ties() {
    // both cores want the bus in the first cycle; the shuffle puts the second first
    let mut sys = system(
        ProtocolKind::Mesi,
        (16, 1, 4),
        vec![vec![load(0x100)], vec![load(0x200)]],
        false,
    );
    assert!(!sys.update());
    let task = sys.bus().task().unwrap();
    assert_eq!(task.issuer_id, 1);
    assert_eq!(task.action, BusAction::BusRdMem(0x200, 4));
    assert_eq!(task.remaining_cycles, 100);

    // and the third first among three
    let mut sys = system(
        ProtocolKind::Mesi,
        (16, 1, 4),
        vec![vec![load(0x100)], vec![load(0x200)], vec![load(0x300)]],
        false,
    );
    assert!(!sys.update());
    assert_eq!(sys.bus().task().unwrap().issuer_id, 1);
}

#[test]
fn mesi_write_invalidates_other_copy() {
    let mut sys = system(
        ProtocolKind::Mesi,
        (64, 2, 16),
        vec![
            vec![load(0x500), other(200), store(0x500)],
            vec![other(120), load(0x500)],
        ],
        false,
    );
    let analyzer = finish(&mut sys, &[0x500]);
    assert_eq!(sys.core_at(0).cache().held(0x500), LineState::Modified);
    assert_eq!(sys.core_at(1).cache().held(0x500), LineState::Invalid);
    assert_eq!(analyzer.stats.bus_num_invalid_or_upd, 1);
    assert_eq!(analyzer.stats.bus_traffic, 16 + 16 + 4);
    assert!(sys.finished());
}

#[test]
fn dragon_write_updates_other_copy() {
    let mut sys = system(
        ProtocolKind::Dragon,
        (64, 2, 16),
        vec![
            vec![load(0x500), other(200), store(0x500)],
            vec![other(120), load(0x500)],
        ],
        false,
    );
    let analyzer = finish(&mut sys, &[0x500]);
    assert_eq!(sys.core_at(0).cache().held(0x500), LineState::SharedModified);
    assert_eq!(sys.core_at(1).cache().held(0x500), LineState::Shared);
    assert_eq!(analyzer.stats.bus_num_invalid_or_upd, 1);
    assert_eq!(analyzer.stats.bus_traffic, 16 + 16 + 4);
}

#[test]
fn dragon_lone_update_is_taken_off_the_bus() {
    // the other core gives its copy up before the store; the update finds no sharer
    let mut sys = system(
        ProtocolKind::Dragon,
        (16, 1, 16),
        vec![
            vec![load(0x500), other(400), store(0x500)],
            vec![other(120), load(0x500), load(0x600)],
        ],
        false,
    );
    let analyzer = finish(&mut sys, &[0x500, 0x600]);
    assert_eq!(sys.core_at(0).cache().held(0x500), LineState::Modified);
    assert_eq!(sys.core_at(1).cache().held(0x500), LineState::Invalid);
    assert_eq!(sys.core_at(1).cache().held(0x600), LineState::Exclusive);
    assert_eq!(analyzer.stats.bus_num_invalid_or_upd, 1);
}

#[test]
fn modified_block_is_written_back() {
    for protocol in [ProtocolKind::Mesi, ProtocolKind::Dragon] {
        let mut sys = system(
            protocol,
            (16, 1, 4),
            vec![vec![store(0x100), load(0x104), load(0x100)]],
            false,
        );
        let analyzer = finish(&mut sys, &[0x100, 0x104]);
        // read for the store, write-back, read, read
        assert_eq!(analyzer.stats.bus_traffic, 16);
        assert_eq!(analyzer.stats.cores[0].cache.num_data_cache_misses, 3);
        assert_eq!(analyzer.stats.cores[0].cache.num_data_cache_hits, 0);
        assert_eq!(analyzer.stats.cache.num_private_data_access, 3);
        assert_eq!(analyzer.stats.exec_cycles, 103 + 202 + 101 + 1);
        assert_eq!(sys.core_at(0).cache().held(0x100), LineState::Exclusive);
        assert_eq!(sys.core_at(0).cache().held(0x104), LineState::Invalid);
    }
}

#[test]
fn read_broadcast_revives_invalid_copy() {
    let traces = vec![
        vec![load(0x500), other(300), other(300)],
        vec![other(120), store(0x500)],
        vec![other(400), load(0x500)],
    ];
    let mut plain = system(ProtocolKind::Mesi, (64, 2, 16), traces.clone(), false);
    finish(&mut plain, &[0x500]);
    assert_eq!(plain.core_at(0).cache().held(0x500), LineState::Invalid);
    assert_eq!(plain.core_at(1).cache().held(0x500), LineState::Shared);
    assert_eq!(plain.core_at(2).cache().held(0x500), LineState::Shared);

    let mut snarfing = system(ProtocolKind::Mesi, (64, 2, 16), traces, true);
    finish(&mut snarfing, &[0x500]);
    assert_eq!(snarfing.core_at(0).cache().held(0x500), LineState::Shared);
    assert_eq!(snarfing.core_at(1).cache().held(0x500), LineState::Shared);
    assert_eq!(snarfing.core_at(2).cache().held(0x500), LineState::Shared);
}

#[test]
fn contended_stores_stay_coherent() {
    for protocol in [ProtocolKind::Mesi, ProtocolKind::Dragon] {
        let trace = |seed: u32| -> Vec<Record> {
            let mut records = Vec::new();
            for i in 0..40u32 {
                let addr = 0x400 + 4 * ((i * 7 + seed * 3) % 6);
                match (i + seed) % 3 {
                    0 => records.push(store(addr)),
                    1 => records.push(load(addr)),
                    _ => {
                        records.push(other((i + seed) % 5));
                        records.push(load(addr))
                    }
                }
            }
            records
        };
        let watched: Vec<u32> = (0..6).map(|i| 0x400 + 4 * i).collect();
        let mut sys = system(
            protocol,
            (64, 2, 16),
            vec![trace(0), trace(1), trace(2), trace(3)],
            false,
        );
        let analyzer = finish(&mut sys, &watched);
        for core in &analyzer.stats.cores {
            assert_eq!(core.load_instructions + core.store_instructions, core.mem_ops);
            assert!(core.num_instructions == 53 || core.num_instructions == 54);
            assert_eq!(core.mem_ops, 40);
            assert_eq!(
                core.cache.num_data_cache_hits + core.cache.num_data_cache_misses,
                core.mem_ops
            );
        }
        assert_eq!(analyzer.stats.cores.len(), 4);
        assert_eq!(analyzer.stats.cores[2].file_name, "core_2");
    }
}

#[test]
fn waiting_accesses_are_bounded() {
    let mut cache = Cache::new(0, 16, 1, 4, &ProtocolKind::Mesi);
    let mut bus = Bus::new();
    assert!(cache.can_accept());
    cache.store(0x100);
    assert!(cache.can_accept());
    assert!(!cache.overflows(&bus));
    // the store misses and waits behind the load of its block
    assert!(cache.update(&mut bus));
    assert!(!cache.can_accept());
    assert!(!cache.overflows(&bus));
    assert!(!bus.occupied());
    assert!(cache.update(&mut bus));
    assert!(cache.can_accept());
    assert_eq!(bus.task().unwrap().action, BusAction::BusRdMem(0x100, 4));
    assert_eq!(cache.stats().num_data_cache_misses, 1);
    assert!(cache.update(&mut bus));
    assert!(cache.sanity_check());
    assert_eq!(cache.held(0x100), LineState::Exclusive);
}

#[test]
fn load_waits_behind_store() {
    // a store to a block that is not cached, with a load behind it, would make three wait
    let mut cache = Cache::new(0, 16, 1, 4, &ProtocolKind::Mesi);
    let bus = Bus::new();
    cache.store(0x100);
    cache.load(0x200);
    assert!(!cache.can_accept());
    assert!(cache.overflows(&bus));

    // behind a store to a block that is cached a load can wait
    let mut cache = Cache::new(0, 16, 1, 4, &ProtocolKind::Mesi);
    let mut bus = Bus::new();
    cache.load(0x100);
    assert!(cache.update(&mut bus));
    bus.clear();
    assert_eq!(cache.held(0x100), LineState::Exclusive);
    cache.store(0x100);
    cache.load(0x201);
    assert!(!cache.overflows(&bus));
    assert!(cache.update(&mut bus));
    assert_eq!(cache.held(0x100), LineState::Modified);
    assert_eq!(cache.stats().num_data_cache_hits, 1);
    assert!(!bus.occupied());
    assert!(cache.update(&mut bus));
    assert_eq!(bus.task().unwrap().action, BusAction::BusRdMem(0x201, 4));
    assert_eq!(cache.held(0x201), LineState::Exclusive);
    assert!(cache.sanity_check());
}

#[test]
fn log_gives_figures() {
    let entries = vec![
        LogEntry::InitSystem(InitSystem {
            protocol: String::from("Mesi"),
            cache_size: 16,
            associativity: 1,
            block_size: 4,
            num_cores: 2,
            archive_name: String::from("a.zip"),
        }),
        LogEntry::InitCore(InitCore {
            id: 1,
            file_name: String::from("one"),
        }),
        LogEntry::Step(Step { clk: 1 }),
        LogEntry::InstrFetch(InstrFetch {
            id: 0,
            type_: Label::Load,
            arg: 0x100,
        }),
        LogEntry::InstrFetch(InstrFetch {
            id: 1,
            type_: Label::Other,
            arg: 7,
        }),
        LogEntry::CacheMiss(CacheMiss { id: 0, addr: 0x100 }),
        LogEntry::Step(Step { clk: 2 }),
        LogEntry::CoreStallMemory(CoreStallMemory { id: 0 }),
        LogEntry::CacheHit(CacheHit { id: 1, addr: 0x100 }),
        LogEntry::CachePrivateAccess(CachePrivateAccess { id: 0, addr: 0x100 }),
        LogEntry::CacheSharedAccess(CacheSharedAccess { id: 1, addr: 0x100 }),
        LogEntry::BusFinish(BusFinish {
            issuer_id: 0,
            action: BusAction::BusRdMem(0x100, 4),
        }),
        LogEntry::BusFinish(BusFinish {
            issuer_id: 0,
            action: BusAction::BusUpdShared(0x100, 8),
        }),
        LogEntry::Step(Step { clk: 9 }),
        LogEntry::CoreHalt(CoreHalt { id: 1 }),
    ];
    assert!(LogAnalyzer::can_extract(&entries));
    let stats = LogAnalyzer::extract_stats(&entries).unwrap();
    assert_eq!(stats.exec_cycles, 9);
    assert_eq!(stats.bus_traffic, 12);
    assert_eq!(stats.bus_num_invalid_or_upd, 1);
    assert_eq!(stats.num_private_data_access, 1);
    assert_eq!(stats.num_shared_data_access, 1);
    assert_eq!(stats.cores.len(), 2);
    assert_eq!(stats.cores[0].mem_ops, 1);
    assert_eq!(stats.cores[0].idle_cycles, 1);
    assert_eq!(stats.cores[0].num_data_cache_misses, 1);
    assert_eq!(stats.cores[0].exec_cycles, 0);
    assert_eq!(stats.cores[1].file_name, "one");
    assert_eq!(stats.cores[1].compute_cycles, 7);
    assert_eq!(stats.cores[1].num_data_cache_hits, 1);
    assert_eq!(stats.cores[1].exec_cycles, 9);
}

#[test]
fn log_must_begin_with_the_system() {
    let empty: Vec<LogEntry> = Vec::new();
    assert!(LogAnalyzer::can_extract(&empty));
    let error = LogAnalyzer::extract_stats(&empty).unwrap_err();
    assert_eq!(error.message(), "Logfile does not contain any entries.");

    let headless = vec![LogEntry::Step(Step { clk: 1 })];
    assert!(LogAnalyzer::can_extract(&headless));
    let error = LogAnalyzer::extract_stats(&headless).unwrap_err();
    assert_eq!(
        error.message(),
        "Invalid first log entry, expected InitSystem."
    );
}

#[test]
fn log_out_of_order_is_told() {
    let head = || {
        LogEntry::InitSystem(InitSystem {
            protocol: String::from("Dragon"),
            cache_size: 16,
            associativity: 1,
            block_size: 4,
            num_cores: 1,
            archive_name: String::new(),
        })
    };
    let stranger = vec![head(), LogEntry::CoreHalt(CoreHalt { id: 1 })];
    assert!(!LogAnalyzer::can_extract(&stranger));
    let access = || LogEntry::CachePrivateAccess(CachePrivateAccess { id: 0, addr: 4 });
    let crowded = vec![head(), access(), access(), access(), access()];
    assert!(!LogAnalyzer::can_extract(&crowded));
    let spaced = vec![
        head(),
        access(),
        access(),
        access(),
        LogEntry::Step(Step { clk: 1 }),
        access(),
    ];
    assert!(LogAnalyzer::can_extract(&spaced));
    assert_eq!(
        LogAnalyzer::extract_stats(&spaced)
            .unwrap()
            .num_private_data_access,
        4
    );
}
