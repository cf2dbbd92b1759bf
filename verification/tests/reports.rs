use lisa_enumeration::counter::InstructionCounter;
use lisa_enumeration::dump::{
    duplicate_encodings, histogram, input_histogram, memory_access_histogram, unique_encodings,
};
use lisa_enumeration::encoding::{Encoding, Output};
use lisa_enumeration::error::Error;
use lisa_enumeration::filter::{ByteFilter, Filter};
use lisa_enumeration::instruction::Instruction;
use lisa_enumeration::seeds::{begins_with_rex, default_seeds, scan_seeds, thin_rex, REX_KEEP_ONE_IN};
use lisa_enumeration::status::{
    column_widths, find_owner, index_artifacts, per_mille, split_seconds, ScanReport, Stats, Verdict, Widths,
};
use lisa_enumeration::work::{Work, WorkerRecord};
use lisa_enumeration::worker::EnumWorker;

fn instr(bytes: &[u8]) -> Instruction {
    Instruction::new(bytes.to_vec()).expect("between one and fifteen bytes")
}

fn pattern(bytes: &[(u8, u8)]) -> Filter {
    let patterns = bytes.iter().map(|(mask, value)| ByteFilter::new(*mask, *value).unwrap()).collect();
    Filter::new(patterns).expect("a filter")
}

fn encoding_with(representative: &Instruction, filters: Vec<Filter>, outputs: Vec<Output>) -> Encoding {
    Encoding::new(representative.clone(), representative.clone(), filters, outputs).unwrap()
}

// Four workers over the single-byte seeds, the third of which stands at
// `position`, and the given artifacts.
fn work_with(position: &Instruction, artifacts: Vec<Encoding>) -> Work {
    let fresh = Work::create(&default_seeds(), 4).unwrap();
    let mut workers = Vec::new();
    for record in fresh.workers() {
        let current = if record.id() == 2 { position.clone() } else { record.from().clone() };
        let counter =
            InstructionCounter::restore(record.from().clone(), record.to().clone(), current, Vec::new()).unwrap();
        let worker = EnumWorker::restore(counter, 0, None, vec![], vec![], false).unwrap();
        workers.push(WorkerRecord::restore(record.id(), worker, 0, false));
    }
    Work::restore(workers, artifacts, 0).unwrap()
}

#[test]
fn an_instruction_behind_the_counter_that_no_filter_matches_is_missed() {
    let scanned = instr(&[0xAB, 0x01]);
    let work = work_with(&instr(&[0xAB, 0x02]), Vec::new());
    let map = index_artifacts(work.artifacts());
    let mut report = ScanReport::new(4, 0);
    assert_eq!(report.observe(&work, &map, &scanned), Ok((2, Verdict::Missed)));
    let zero = Stats { found: 0, missed: 0, total: 0 };
    assert_eq!(report.counts(), &vec![zero, zero, Stats { found: 0, missed: 1, total: 1 }, zero]);
    assert_eq!(report.totals(), Stats { found: 0, missed: 1, total: 1 });
    assert_eq!(report.encodings_met(), 0);
}

#[test]
fn an_instruction_that_a_filter_matches_is_found() {
    let scanned = instr(&[0xAB, 0x01]);
    let other = instr(&[0x90]);
    let artifacts = vec![
        encoding_with(&other, vec![Filter::exact(&other)], vec![]),
        encoding_with(&scanned, vec![pattern(&[(0xFF, 0xAB), (0xFE, 0x00)])], vec![]),
    ];
    let work = work_with(&instr(&[0xAB, 0x02]), artifacts);
    let map = index_artifacts(work.artifacts());
    assert_eq!(map.len(), 2);
    let mut report = ScanReport::new(4, 2);
    assert_eq!(report.observe(&work, &map, &scanned), Ok((2, Verdict::Found(1))));
    assert_eq!(report.counts()[2], Stats { found: 1, missed: 0, total: 1 });
    assert_eq!(report.encodings_seen(), &vec![false, true]);
    assert_eq!(report.encodings_met(), 1);
}

#[test]
fn an_instruction_ahead_of_the_counter_is_neither_found_nor_missed() {
    let work = work_with(&instr(&[0xAB, 0x01]), Vec::new());
    let map = index_artifacts(work.artifacts());
    let mut report = ScanReport::new(4, 0);
    assert_eq!(report.observe(&work, &map, &instr(&[0xAB, 0x01])), Ok((2, Verdict::Ahead)));
    assert_eq!(report.observe(&work, &map, &instr(&[0xAB, 0x02])), Ok((2, Verdict::Ahead)));
    assert_eq!(report.observe(&work, &map, &instr(&[0xAB, 0x00, 0xFF])), Ok((2, Verdict::Missed)));
    assert_eq!(report.observe(&work, &map, &instr(&[0x05])), Ok((0, Verdict::Ahead)));
    assert_eq!(report.counts()[2], Stats { found: 0, missed: 1, total: 3 });
    assert_eq!(report.counts()[0], Stats { found: 0, missed: 0, total: 1 });
    assert_eq!(report.counts()[2].examined(), 1);
}

#[test]
fn an_instruction_outside_all_ranges_has_no_owner() {
    let seeds = vec![instr(&[0x10]), instr(&[0x20])];
    let work = Work::create(&seeds, 2).unwrap();
    let map = index_artifacts(work.artifacts());
    let mut report = ScanReport::new(2, 0);
    assert_eq!(report.observe(&work, &map, &instr(&[0x0F, 0xFF])), Err(Error::NoOwner));
    assert_eq!(report.totals(), Stats { found: 0, missed: 0, total: 0 });
    assert_eq!(find_owner(work.workers(), &instr(&[0x0F])), None);
    assert_eq!(find_owner(work.workers(), &instr(&[0x10])), Some(0));
    assert_eq!(find_owner(work.workers(), &instr(&[0x1F, 0xFF])), Some(0));
    assert_eq!(find_owner(work.workers(), &instr(&[0x20])), Some(1));
    assert_eq!(find_owner(work.workers(), &instr(&[0xFF; 15])), Some(1));
}

#[test]
fn a_report_of_the_wrong_shape_is_refused() {
    let scanned = instr(&[0xAB, 0x01]);
    let artifacts = vec![encoding_with(&scanned, vec![Filter::exact(&scanned)], vec![])];
    let work = work_with(&instr(&[0xAB, 0x02]), artifacts);
    let map = index_artifacts(work.artifacts());
    let mut narrow = ScanReport::new(2, 1);
    assert_eq!(narrow.observe(&work, &map, &scanned), Err(Error::InvalidState));
    let mut short = ScanReport::new(4, 0);
    assert_eq!(short.observe(&work, &map, &scanned), Err(Error::InvalidState));
    assert_eq!(short.totals(), Stats { found: 0, missed: 0, total: 0 });
}

#[test]
fn reports_merge_place_by_place() {
    let scanned = instr(&[0xAB, 0x01]);
    let artifacts = vec![
        encoding_with(&scanned, vec![Filter::exact(&scanned)], vec![]),
        encoding_with(&instr(&[0x05]), vec![pattern(&[(0xFF, 0x05)])], vec![]),
    ];
    let work = work_with(&instr(&[0xAC]), artifacts);
    let map = index_artifacts(work.artifacts());
    let mut left = ScanReport::new(4, 2);
    left.observe(&work, &map, &scanned).unwrap();
    left.observe(&work, &map, &instr(&[0xAB, 0x07])).unwrap();
    let mut right = ScanReport::new(4, 2);
    right.observe(&work, &map, &instr(&[0x05, 0x01])).unwrap();
    right.observe(&work, &map, &instr(&[0xAB, 0x01, 0x00])).unwrap();
    right.observe(&work, &map, &instr(&[0xB0])).unwrap();
    left.merge(&right);
    assert_eq!(left.counts()[0], Stats { found: 1, missed: 0, total: 1 });
    assert_eq!(left.counts()[2], Stats { found: 2, missed: 1, total: 4 });
    assert_eq!(left.encodings_seen(), &vec![true, true]);
    assert_eq!(left.totals(), Stats { found: 3, missed: 1, total: 5 });
    assert_eq!(left.encodings_met(), 2);
    let empty = ScanReport::new(0, 0);
    left.merge(&empty);
    assert_eq!(left.totals(), Stats { found: 3, missed: 1, total: 5 });
}

#[test]
fn stats_add_up_and_stay_at_the_top() {
    let a = Stats { found: 1, missed: 2, total: 4 };
    let b = Stats { found: 10, missed: 0, total: usize::MAX };
    assert_eq!(a.combined(&b), Stats { found: 11, missed: 2, total: usize::MAX });
    assert_eq!(Stats::zero(), Stats { found: 0, missed: 0, total: 0 });
    assert_eq!(a.examined(), 3);
    assert_eq!(Stats { found: usize::MAX, missed: 1, total: 0 }.examined(), usize::MAX);
}

#[test]
fn seconds_split_into_hours_minutes_and_seconds() {
    assert_eq!(split_seconds(0), (0, 0, 0));
    assert_eq!(split_seconds(59), (0, 0, 59));
    assert_eq!(split_seconds(3725), (1, 2, 5));
    assert_eq!(split_seconds(86399), (23, 59, 59));
    assert_eq!(split_seconds(u64::MAX), (u64::MAX / 3600, 0, 15));
}

#[test]
fn shares_are_guarded_against_an_empty_whole() {
    assert_eq!(per_mille(0, 0), None);
    assert_eq!(per_mille(5, 0), None);
    assert_eq!(per_mille(1, 4), Some(250));
    assert_eq!(per_mille(2, 3), Some(666));
    assert_eq!(per_mille(7, 7), Some(1000));
    assert_eq!(per_mille(usize::MAX, 1), Some(usize::MAX as u128 * 1000));
}

#[test]
fn columns_are_four_characters_a_byte_wide() {
    let work = work_with(&instr(&[0xAB, 0x02, 0x03]), Vec::new());
    assert_eq!(column_widths(work.workers()), Widths { from: 4, to: 60, current: 12 });
    let one = Work::create(&default_seeds(), 1).unwrap();
    assert_eq!(column_widths(one.workers()), Widths { from: 4, to: 0, current: 4 });
    assert_eq!(column_widths(&Vec::new()), Widths { from: 0, to: 0, current: 0 });
}

#[test]
fn histogram_lists_each_key_once_in_rising_order() {
    assert_eq!(histogram(&vec![3, 1, 3, 2, 3, 1]), vec![(1, 2), (2, 1), (3, 3)]);
    assert_eq!(histogram(&vec![]), vec![]);
    assert_eq!(histogram(&vec![7; 5]), vec![(7, 5)]);
    assert_eq!(histogram(&vec![usize::MAX, 0]), vec![(0, 1), (usize::MAX, 1)]);
}

#[test]
fn dump_figures_count_the_artifacts() {
    let load = Output { num_inputs: 3, memory_access: true };
    let store = Output { num_inputs: 1, memory_access: true };
    let flag = Output { num_inputs: 4, memory_access: false };
    let a = instr(&[0x01, 0xC0]);
    let b = instr(&[0x8B, 0x00]);
    let c = instr(&[0x90]);
    let artifacts = vec![
        encoding_with(&b, vec![Filter::exact(&b)], vec![load, flag]),
        encoding_with(&a, vec![Filter::exact(&a)], vec![flag]),
        encoding_with(&c, vec![Filter::exact(&c)], vec![]),
        encoding_with(&b, vec![Filter::exact(&b)], vec![load, store]),
        encoding_with(&a, vec![Filter::exact(&a)], vec![flag, flag]),
    ];
    assert_eq!(unique_encodings(&artifacts), 3);
    assert_eq!(duplicate_encodings(&artifacts), 2);
    assert_eq!(memory_access_histogram(&artifacts), vec![(0, 3), (1, 1), (2, 1)]);
    assert_eq!(input_histogram(&artifacts), vec![(0, 1), (3, 1), (4, 3)]);
    assert_eq!(unique_encodings(&Vec::new()), 0);
    assert_eq!(duplicate_encodings(&Vec::new()), 0);
    assert_eq!(input_histogram(&Vec::new()), vec![]);
}

#[test]
fn default_seeds_are_the_single_bytes() {
    let seeds = default_seeds();
    assert_eq!(seeds.len(), 256);
    for (b, seed) in seeds.iter().enumerate() {
        assert_eq!(seed.bytes(), &vec![b as u8]);
    }
}

#[test]
fn rex_prefixes_are_found_behind_other_prefixes() {
    for rex in [0x40u8, 0x48, 0x4F] {
        assert!(begins_with_rex(&instr(&[rex])));
        assert!(begins_with_rex(&instr(&[rex, 0x89, 0xC0])));
        for lead in [0xF0u8, 0x66, 0xF2, 0xF3] {
            assert!(begins_with_rex(&instr(&[lead, rex, 0x01])));
        }
        for lead in [0xF0u8, 0xF2, 0xF3] {
            assert!(begins_with_rex(&instr(&[lead, 0x66, rex])));
        }
        assert!(!begins_with_rex(&instr(&[0x66, 0x66, rex])));
        assert!(!begins_with_rex(&instr(&[0x67, rex])));
        assert!(!begins_with_rex(&instr(&[0xF0, 0x67, rex])));
    }
    assert!(!begins_with_rex(&instr(&[0x50])));
    assert!(!begins_with_rex(&instr(&[0x3F])));
    assert!(!begins_with_rex(&instr(&[0x66])));
    assert!(!begins_with_rex(&instr(&[0xF0, 0x66])));
    assert!(!begins_with_rex(&instr(&[0x66, 0x90, 0x48])));
}

#[test]
fn one_in_eight_rex_seeds_stays() {
    assert_eq!(REX_KEEP_ONE_IN, 8);
    let mut scan = Vec::new();
    for n in 0..40u8 {
        scan.push(instr(&[0x30, n]));
        scan.push(instr(&[0x48, n]));
    }
    let kept = thin_rex(&scan);
    let rex: Vec<&Instruction> = kept.iter().filter(|i| i.bytes()[0] == 0x48).collect();
    let plain: Vec<&Instruction> = kept.iter().filter(|i| i.bytes()[0] == 0x30).collect();
    assert_eq!(plain.len(), 40);
    assert_eq!(rex.len(), 5);
    let tails: Vec<u8> = rex.iter().map(|i| i.bytes()[1]).collect();
    assert_eq!(tails, vec![7, 15, 23, 31, 39]);
    let order: Vec<&Instruction> = scan.iter().filter(|i| kept.contains(i)).collect();
    assert_eq!(order, kept.iter().collect::<Vec<_>>());
    assert!(thin_rex(&vec![instr(&[0x48]); 7]).is_empty());
    assert_eq!(thin_rex(&Vec::new()), Vec::new());
}

#[test]
fn scan_seeds_start_with_the_zero_byte() {
    let scan = vec![instr(&[0x01, 0xC0]), instr(&[0x48, 0x01]), instr(&[0x90])];
    let seeds = scan_seeds(&scan);
    assert_eq!(seeds, vec![instr(&[0x00]), instr(&[0x01, 0xC0]), instr(&[0x90])]);
    assert_eq!(scan_seeds(&Vec::new()), vec![instr(&[0x00])]);
    let work = Work::create(&seeds, 3).unwrap();
    assert_eq!(work.workers()[0].from(), &instr(&[0x00]));
    assert_eq!(work.workers()[2].from(), &instr(&[0x90]));
}
