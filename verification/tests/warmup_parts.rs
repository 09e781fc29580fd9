use reth_accel::bytes::ByteOrder;
use reth_accel::bytes::bytes_of_u64;
use reth_accel::bytes::reversed;
use reth_accel::bytes::right_pad;
use reth_accel::bytes::u64_of_bytes;
use reth_accel::warmup::key_range::KeyBoundary;
use reth_accel::warmup::key_range::KeyRange;
use reth_accel::warmup::key_range::KeySpace;
use reth_accel::warmup::key_range::byte_segment_bounds;
use reth_accel::warmup::key_range::decode_integer_key;
use reth_accel::warmup::key_range::integer_segment_bounds;
use reth_accel::warmup::memory::get_available_memory;
use reth_accel::warmup::memory::mem_available_kib;
use reth_accel::warmup::memory::parse_memory_size;
use reth_accel::warmup::plan::WarmupMode;
use reth_accel::warmup::plan::build_warmup_plan;
use reth_accel::warmup::plan::clamp_segments;
use reth_accel::warmup::plan::total_size_estimate;
use reth_accel::warmup::run::BUILTIN_WARMUP_TIMEOUT;
use reth_accel::warmup::run::BuiltinWarmup;
use reth_accel::warmup::run::WarmupStep;
use reth_accel::warmup::run::after_builtin;
use reth_accel::warmup::run::after_metadata;
use reth_accel::warmup::run::builtin_warmup_flags;
use reth_accel::warmup::run::builtin_warmup_outcome;
use reth_accel::warmup::run::choose_reading;
use reth_accel::warmup::run::exceeds_memory_limit;
use reth_accel::warmup::run::get_table_metadata;
use reth_accel::warmup::run::memory_limit;
use reth_accel::warmup::run::table_size;
use reth_accel::warmup::run::thread_count;
use reth_accel::warmup::run::threads_for_cpus;
use reth_accel::warmup::run::total_known_size;
use reth_accel::warmup::run::warmup_threads;
use reth_accel::warmup::scan::ScanStep;
use reth_accel::warmup::scan::TableScan;
use reth_accel::warmup::stats::sorted_without_repeats;
use reth_accel::warmup::tally::WarmupLedger;
use reth_accel::warmup::tally::WorkerTally;
use reth_accel::warmup::tally::merge_tallies;
use reth_accel::warmup::tally::warmup_tables_sequential;
use reth_accel::warmup::tally::worker_count;

fn strings(names: &[&str]) -> Vec<String> {
    names.iter().map(|name| name.to_string()).collect()
}

#[test]
fn byte_segments() {
    assert_eq!(byte_segment_bounds(0, 1), (None, None));
    assert_eq!(byte_segment_bounds(0, 4), (None, Some(64)));
    assert_eq!(byte_segment_bounds(1, 4), (Some(64), Some(128)));
    assert_eq!(byte_segment_bounds(3, 4), (Some(192), None));
    assert_eq!(byte_segment_bounds(1, 3), (Some(85), Some(170)));
}

#[test]
fn integer_segments() {
    assert_eq!(integer_segment_bounds(0, 1), (None, None));
    assert_eq!(integer_segment_bounds(0, 2), (None, Some(1 << 63)));
    assert_eq!(integer_segment_bounds(1, 2), (Some(1 << 63), None));
    assert_eq!(integer_segment_bounds(1, 3).0, Some(6148914691236517205));
}

#[test]
fn segments_cover_each_key_once() {
    for segments in [1usize, 2, 3, 7, 64] {
        for first in 0..=255u8 {
            let key = [first, 3];
            let covering = (0..segments)
                .filter(|i| {
                    let range = KeyRange::segmented(KeySpace::Bytes, *i, segments);
                    let started = match range.start {
                        Some(KeyBoundary::Byte(start)) => first >= start,
                        _ => true,
                    };
                    started && !range.should_stop(ByteOrder::Big, &key)
                })
                .count();
            assert_eq!(covering, 1);
        }
    }
}

#[test]
fn integer_keys_are_read_in_either_order() {
    assert_eq!(decode_integer_key(ByteOrder::Little, &[1, 2]), 0x0201);
    assert_eq!(decode_integer_key(ByteOrder::Big, &[1, 2]), 0x0102 << 48);
    assert_eq!(decode_integer_key(ByteOrder::Little, &[0, 0, 0, 0, 0, 0, 0, 1, 9]), 1 << 56);
    assert_eq!(decode_integer_key(ByteOrder::Little, &[]), 0);
    let range = KeyRange::segmented(KeySpace::Integer, 1, 2);
    for order in [ByteOrder::Little, ByteOrder::Big] {
        let start = range.start_key_bytes(order).unwrap();
        assert_eq!(decode_integer_key(order, &start), 1 << 63);
        assert_eq!(u64_of_bytes(order, &bytes_of_u64(order, 77)), 77);
    }
    let first = KeyRange::segmented(KeySpace::Integer, 0, 2);
    assert!(first.start_key_bytes(ByteOrder::Little).is_none());
    assert!(first.should_stop(ByteOrder::Big, &(1u64 << 63).to_be_bytes()));
    assert!(!first.should_stop(ByteOrder::Big, &((1u64 << 63) - 1).to_be_bytes()));
}

#[test]
fn bytes_are_padded_and_reversed() {
    assert_eq!(right_pad::<4>(&[1, 2]), [1, 2, 0, 0]);
    assert_eq!(right_pad::<2>(&[1, 2, 3]), [1, 2]);
    assert_eq!(reversed(&[1, 2, 3]), [3, 2, 1]);
}

#[test]
fn scan_stops_at_the_end_of_its_range() {
    let range = KeyRange::segmented(KeySpace::Bytes, 0, 2);
    let mut scan = TableScan::new(range, ByteOrder::Little);
    assert_eq!(scan.visit(&[]), ScanStep::Next);
    assert_eq!(scan.visit(&[127]), ScanStep::Next);
    assert_eq!(scan.visit(&[128]), ScanStep::Stop);
    assert_eq!(scan.count, 2);
}

#[test]
fn scan_yields_now_and_then() {
    let mut scan = TableScan::new(KeyRange::entire(KeySpace::Bytes), ByteOrder::Little);
    let yields: Vec<usize> =
        (1..=400_001).filter(|_| scan.visit(&[255]) == ScanStep::YieldThenNext).collect();
    assert_eq!(yields, vec![200_000, 400_000]);
    assert_eq!(scan.count, 400_001);
}

#[test]
fn available_memory_is_read() {
    let meminfo = "MemTotal:       32594480 kB\nMemFree:  1 kB\nMemAvailable:   16297240 kB\n";
    assert_eq!(mem_available_kib(meminfo), Some(16297240));
    assert_eq!(get_available_memory(meminfo), Ok(16297240 * 1024));
    let second = "MemAvailable: lots\nMemAvailable:\t+7 kB\r\n";
    assert_eq!(get_available_memory(second), Ok(7 * 1024));
    assert_eq!(
        get_available_memory("MemFree: 5 kB"),
        Err("Could not parse MemAvailable from /proc/meminfo".to_string())
    );
    assert!(get_available_memory("MemAvailable:5 kB").is_err());
    assert!(get_available_memory(" MemAvailable: 5 kB").is_err());
    assert!(get_available_memory("").is_err());
}

#[test]
fn memory_size_is_read() {
    assert_eq!(parse_memory_size("17179869184\n"), Some(17179869184));
    assert_eq!(parse_memory_size("  42  "), Some(42));
    assert_eq!(parse_memory_size("4 2"), None);
    assert_eq!(parse_memory_size("-1"), None);
    assert_eq!(parse_memory_size(""), None);
    assert_eq!(parse_memory_size("99999999999999999999999"), None);
}

#[test]
fn readers_are_limited() {
    assert_eq!(clamp_segments(0, 8), 1);
    assert_eq!(clamp_segments(5, 8), 5);
    assert_eq!(clamp_segments(9, 8), 8);
    assert_eq!(clamp_segments(500, 1000), 64);
    assert_eq!(clamp_segments(5, 0), 1);
    assert_eq!(worker_count(8, 3), 3);
    assert_eq!(worker_count(2, 3), 2);
    assert_eq!(worker_count(0, 3), 1);
}

#[test]
fn plan_lists_the_segments() {
    let tables = strings(&["A", "B"]);
    let metadata = get_table_metadata(&tables, &vec![Some((300, true)), None]);
    assert_eq!(total_size_estimate(&metadata, &tables), 301);
    assert_eq!(total_known_size(&metadata, &tables), 300);
    let plan = build_warmup_plan(&tables, &metadata, 4, &vec![4, 1]);
    assert_eq!(plan.tasks.len(), 5);
    assert_eq!(*plan.segments_per_table.get("A").unwrap(), 4);
    assert_eq!(*plan.segments_per_table.get("B").unwrap(), 1);
    assert_eq!(plan.tasks[1].table_name, "A");
    assert_eq!(plan.tasks[1].segment_index, 1);
    assert_eq!(plan.tasks[1].segment_total, 4);
    assert_eq!(plan.tasks[1].range.key_space, KeySpace::Integer);
    assert_eq!(plan.tasks[1].range.start, Some(KeyBoundary::Integer(1 << 62)));
    assert_eq!(plan.tasks[4].table_name, "B");
    assert_eq!(plan.tasks[4].range.key_space, KeySpace::Bytes);
    assert_eq!(plan.tasks[4].range.start, None);
    let none = strings(&[]);
    assert!(build_warmup_plan(&none, &metadata, 4, &vec![]).tasks.is_empty());
    assert_eq!(total_size_estimate(&metadata, &none), 1);
}

#[test]
fn failed_segment_fails_its_table() {
    let tables = strings(&["A", "B"]);
    let metadata = get_table_metadata(&tables, &vec![None, None]);
    let plan = build_warmup_plan(&tables, &metadata, 4, &vec![2, 2]);
    let mut ledger = WarmupLedger::new(plan.segments_per_table);
    let mut first = WorkerTally::new();
    let mut second = WorkerTally::new();
    first.settle_segment(&mut ledger, &tables[1], None);
    second.settle_segment(&mut ledger, &tables[0], Some(10));
    second.settle_segment(&mut ledger, &tables[1], Some(5));
    first.settle_segment(&mut ledger, &tables[0], Some(20));
    assert_eq!(first.tables_warmed, 1);
    assert_eq!(second.tables_warmed, 0);
    let stats = merge_tallies(&vec![first, second]);
    assert_eq!(stats.tables_warmed, 1);
    assert_eq!(stats.total_entries, 35);
    assert_eq!(stats.failed_tables, strings(&["B"]));
    assert!(stats.skipped_tables.is_empty());
}

#[test]
fn sequential_reading_reports_every_table() {
    let tables = strings(&["C", "A", "B"]);
    let stats = warmup_tables_sequential(&tables, &vec![None, Some(4), None]);
    assert_eq!(stats.tables_warmed, 1);
    assert_eq!(stats.total_entries, 4);
    assert_eq!(stats.failed_tables, strings(&["C", "B"]));
    assert!(stats.skipped_tables.is_empty());
}

#[test]
fn names_are_sorted_and_listed_once() {
    let list = sorted_without_repeats(strings(&["b", "a", "b", "ab", "a", "B"]));
    assert_eq!(list, strings(&["B", "a", "ab", "b"]));
    assert!(sorted_without_repeats(Vec::new()).is_empty());
}

#[test]
fn threads_are_twice_the_cpus() {
    assert_eq!(thread_count(0), 1);
    assert_eq!(thread_count(8), 16);
    assert_eq!(threads_for_cpus(0), Some(1));
    assert_eq!(threads_for_cpus(8), Some(16));
    assert_eq!(threads_for_cpus(usize::MAX / 2), Some(usize::MAX - 1));
    assert_eq!(threads_for_cpus(usize::MAX / 2 + 1), None);
    assert_eq!(warmup_threads(), threads_for_cpus(num_cpus::get()));
    assert_eq!(warmup_threads(), Some(2 * num_cpus::get()));
}

#[test]
fn tables_are_read_in_parallel_where_it_pays() {
    assert!(matches!(choose_reading(2, 2), WarmupStep::Parallel));
    assert!(matches!(choose_reading(1, 2), WarmupStep::Sequential));
    assert!(matches!(choose_reading(2, 1), WarmupStep::Sequential));
    assert!(matches!(after_metadata(WarmupMode::All), WarmupStep::Builtin));
    assert!(matches!(after_metadata(WarmupMode::State), WarmupStep::Read));
    assert!(matches!(after_builtin(false, 2, 9), WarmupStep::Read));
    match after_builtin(true, 7, 9) {
        WarmupStep::Finished(stats) => {
            assert_eq!(stats.tables_warmed, 7);
            assert_eq!(stats.total_entries, 0);
            assert_eq!(stats.duration, 9);
            assert!(stats.skipped_tables.is_empty());
            assert!(stats.failed_tables.is_empty());
        }
        _ => panic!("not finished"),
    }
}

#[test]
fn builtin_warmup() {
    assert_eq!(builtin_warmup_flags(true), 3);
    assert_eq!(builtin_warmup_flags(false), 1);
    assert_eq!(BUILTIN_WARMUP_TIMEOUT, 3600 * 65536);
    assert_eq!(builtin_warmup_outcome(0), Ok(BuiltinWarmup::Completed));
    assert_eq!(builtin_warmup_outcome(-1), Ok(BuiltinWarmup::TimedOut));
    assert_eq!(builtin_warmup_outcome(22), Err(22));
}

#[test]
fn sizes_and_limits() {
    assert_eq!(table_size(4096, 3, 2, 1), 4096 * 6);
    assert_eq!(memory_limit(None), Some(80));
    assert_eq!(memory_limit(Some(0)), None);
    assert_eq!(memory_limit(Some(10)), Some(10));
    assert!(exceeds_memory_limit(11, Some(10)));
    assert!(!exceeds_memory_limit(10, Some(10)));
    assert!(!exceeds_memory_limit(10, None));
}
