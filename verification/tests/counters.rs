use lisa_enumeration::counter::InstructionCounter;
use lisa_enumeration::filter::{ByteFilter, Filter};
use lisa_enumeration::instruction::Instruction;

fn instr(bytes: &[u8]) -> Instruction {
    Instruction::new(bytes.to_vec()).expect("between one and fifteen bytes")
}

fn pattern(bytes: &[(u8, u8)]) -> Filter {
    let patterns = bytes.iter().map(|(mask, value)| ByteFilter::new(*mask, *value).unwrap()).collect();
    Filter::new(patterns).expect("a filter")
}

// Thirteen bytes `FF` and then `tail`.
fn deep(tail: &[u8]) -> Instruction {
    let mut bytes = vec![0xFF; 13];
    bytes.extend_from_slice(tail);
    instr(&bytes)
}

// A filter that fixes thirteen bytes `FF` and then follows `tail`.
fn deep_pattern(tail: &[(u8, u8)]) -> Filter {
    let mut bytes = vec![(0xFF, 0xFF); 13];
    bytes.extend_from_slice(tail);
    pattern(&bytes)
}

#[test]
fn range_starts_at_from_without_filters() {
    let c = InstructionCounter::range(instr(&[0x40]), Some(instr(&[0x7F]))).unwrap();
    assert_eq!(c.current(), &instr(&[0x40]));
    assert_eq!(c.from(), &instr(&[0x40]));
    assert_eq!(c.to(), &Some(instr(&[0x7F])));
    assert_eq!(c.num_filters(), 0);
    let open = InstructionCounter::range(instr(&[0x40]), None).unwrap();
    assert_eq!(open.to(), &None);
}

#[test]
fn range_rejects_an_end_before_the_start() {
    assert!(InstructionCounter::range(instr(&[0x40]), Some(instr(&[0x3F, 0xFF]))).is_none());
    assert!(InstructionCounter::range(instr(&[0x40]), Some(instr(&[0x40]))).is_some());
}

#[test]
fn advance_without_filters_goes_to_the_successor() {
    let mut c = InstructionCounter::range(instr(&[0x00]), None).unwrap();
    assert_eq!(c.advance(false), Some(instr(&[0x00, 0x00])));
    assert_eq!(c.current(), &instr(&[0x00, 0x00]));
    assert_eq!(c.advance(true), Some(instr(&[0x00, 0x00, 0x00])));
    assert_eq!(c.current(), &instr(&[0x00, 0x00, 0x00]));
}

#[test]
fn advance_with_tunnel_leaps_over_a_covered_class() {
    let mut c = InstructionCounter::range(instr(&[0x00]), None).unwrap();
    c.filter(pattern(&[(0xFF, 0x00)]));
    c.filter(pattern(&[(0xFE, 0x02)]));
    assert_eq!(c.num_filters(), 2);
    assert_eq!(c.advance(true), Some(instr(&[0x01])));
    assert_eq!(c.advance(true), Some(instr(&[0x01, 0x00])));
    let mut d = InstructionCounter::range(instr(&[0x01, 0xFF]), None).unwrap();
    d.filter(pattern(&[(0xFF, 0x01), (0xFF, 0xFF)]));
    d.filter(pattern(&[(0xFE, 0x02)]));
    assert_eq!(d.advance(true), Some(instr(&[0x04])));
}

#[test]
fn advance_stops_at_the_end_of_the_range() {
    let mut c = InstructionCounter::range(deep(&[0xFE, 0xFE]), Some(deep(&[0xFE, 0xFF]))).unwrap();
    assert_eq!(c.advance(false), Some(deep(&[0xFE, 0xFF])));
    assert_eq!(c.advance(false), None);
    assert_eq!(c.current(), &deep(&[0xFE, 0xFF]));
    assert_eq!(c.advance(true), None);

    let mut last = InstructionCounter::range(instr(&[0xFF; 15]), None).unwrap();
    assert_eq!(last.advance(false), None);
    assert_eq!(last.advance(true), None);
    assert_eq!(last.current(), &instr(&[0xFF; 15]));
}

#[test]
fn advance_reports_exhaustion_when_filters_cover_the_rest() {
    let mut c = InstructionCounter::range(instr(&[0x80]), Some(instr(&[0xBF]))).unwrap();
    c.filter(pattern(&[(0xC0, 0x80)]));
    assert_eq!(c.advance(true), None);
    assert_eq!(c.current(), &instr(&[0x80]));
}

#[test]
fn next_after_leaves_the_counter_where_it_is() {
    let mut c = InstructionCounter::range(instr(&[0x10]), None).unwrap();
    c.filter(pattern(&[(0xFF, 0x20)]));
    assert_eq!(c.next_after(&instr(&[0x1F, 0xFF, 0xFF]), true), Some(instr(&[0x1F, 0xFF, 0xFF, 0x00])));
    assert_eq!(c.next_after(&instr(&[0x20]), true), Some(instr(&[0x21])));
    assert_eq!(c.current(), &instr(&[0x10]));
}

// All instructions from `from` on, in order, up to `to` if there is one.
fn walk(from: &Instruction, to: &Option<Instruction>) -> Vec<Instruction> {
    let mut all = Vec::new();
    let mut at = from.successor();
    while let Some(i) = at {
        if let Some(t) = to {
            if !i.le(t) {
                break;
            }
        }
        at = i.successor();
        all.push(i);
    }
    all
}

fn random_filters(seed: u32, count: usize) -> Vec<Filter> {
    let mut state = seed;
    let mut next = move || {
        state = state.wrapping_mul(1_664_525).wrapping_add(1_013_904_223);
        (state >> 16) as u8
    };
    let mut filters = Vec::new();
    for _ in 0..count {
        let tail_len = 1 + (next() % 2) as usize;
        let mut tail = Vec::new();
        for _ in 0..tail_len {
            let mask = next() | next() | next();
            let value = (next() | 0xF0) & mask;
            tail.push((mask, value));
        }
        filters.push(deep_pattern(&tail));
    }
    filters
}

#[test]
fn advance_never_stops_at_a_covered_instruction_and_never_skips_an_uncovered_one() {
    let mut stopped = 0;
    let mut skipped = 0;
    for seed in 1..=6u32 {
        for tunnel in [false, true] {
            let from = deep(&[0xFC]);
            let to = if seed % 2 == 0 { Some(deep(&[0xFE, 0x80])) } else { None };
            let filters = random_filters(seed, 6);
            let mut c = InstructionCounter::range(from.clone(), to.clone()).unwrap();
            for f in &filters {
                c.filter(f.clone());
            }
            let all = walk(&from, &to);
            let expected: Vec<Instruction> =
                all.iter().filter(|i| !filters.iter().any(|f| f.matches(i))).cloned().collect();
            stopped += expected.len();
            skipped += all.len() - expected.len();
            let mut stops = Vec::new();
            while let Some(i) = c.advance(tunnel) {
                assert_eq!(c.current(), &i);
                assert!(!c.is_covered(&i));
                stops.push(i);
            }
            assert_eq!(stops, expected);
        }
    }
    assert!(stopped > 0);
    assert!(skipped > 0);
}

#[test]
fn matching_filter_gives_the_first_match() {
    let mut c = InstructionCounter::range(instr(&[0x00]), None).unwrap();
    c.filter(pattern(&[(0xFF, 0x90)]));
    c.filter(pattern(&[(0xF0, 0x40)]));
    c.filter(pattern(&[(0xFF, 0x48)]));
    assert_eq!(c.matching_filter(&instr(&[0x48, 0x01])), Some(1));
    assert_eq!(c.matching_filter(&instr(&[0x90])), Some(0));
    assert_eq!(c.matching_filter(&instr(&[0x91])), None);
    assert!(c.is_covered(&instr(&[0x4F])));
    assert!(!c.is_covered(&instr(&[0x50])));
    assert_eq!(c.filters().len(), 3);
}

#[test]
fn rebuild_inplace_drops_covered_filters_and_keeps_what_is_covered() {
    let mut c = InstructionCounter::range(deep(&[0xFC]), None).unwrap();
    let filters = random_filters(77, 20);
    for f in &filters {
        c.filter(f.clone());
    }
    c.filter(filters[3].clone());
    c.filter(deep_pattern(&[(0xFF, 0xFD)]));
    c.filter(deep_pattern(&[(0xFF, 0xFD), (0xF0, 0x10)]));
    let before = c.num_filters();
    assert_eq!(before, 23);
    let all = walk(&deep(&[0xFC]), &None);
    let covered_before: Vec<bool> = all.iter().map(|i| c.is_covered(i)).collect();
    c.rebuild_inplace();
    let once = c.num_filters();
    assert!(once <= before - 2);
    let covered_after: Vec<bool> = all.iter().map(|i| c.is_covered(i)).collect();
    assert_eq!(covered_before, covered_after);
    for (a, f) in c.filters().iter().enumerate() {
        for g in c.filters().iter().skip(a + 1) {
            assert!(!f.covers(g));
        }
    }
    let kept: Vec<Vec<ByteFilter>> = c.filters().iter().map(|f| f.bytes().clone()).collect();
    c.rebuild_inplace();
    assert_eq!(c.num_filters(), once);
    let again: Vec<Vec<ByteFilter>> = c.filters().iter().map(|f| f.bytes().clone()).collect();
    assert_eq!(kept, again);
    assert_eq!(c.current(), &deep(&[0xFC]));
}

#[test]
fn clear_filters_removes_all() {
    let mut c = InstructionCounter::range(instr(&[0x00]), None).unwrap();
    c.filter(pattern(&[(0xFF, 0x00)]));
    c.clear_filters();
    assert_eq!(c.num_filters(), 0);
    assert_eq!(c.advance(true), Some(instr(&[0x00, 0x00])));
}

#[test]
fn seek_moves_forward_within_the_range_only() {
    let mut c = InstructionCounter::range(instr(&[0x40]), Some(instr(&[0x7F]))).unwrap();
    assert!(c.seek(instr(&[0x50, 0x01])));
    assert_eq!(c.current(), &instr(&[0x50, 0x01]));
    assert!(!c.seek(instr(&[0x50])));
    assert!(!c.seek(instr(&[0x7F, 0x00])));
    assert_eq!(c.current(), &instr(&[0x50, 0x01]));
    assert!(c.seek(instr(&[0x7F])));
}

#[test]
fn restore_checks_that_the_position_lies_in_the_range() {
    let f = vec![pattern(&[(0xFF, 0x41)])];
    let ok = InstructionCounter::restore(instr(&[0x40]), Some(instr(&[0x7F])), instr(&[0x42]), f.clone());
    let ok = ok.unwrap();
    assert_eq!(ok.current(), &instr(&[0x42]));
    assert_eq!(ok.num_filters(), 1);
    assert!(InstructionCounter::restore(instr(&[0x40]), Some(instr(&[0x7F])), instr(&[0x3F]), f.clone()).is_none());
    assert!(InstructionCounter::restore(instr(&[0x40]), Some(instr(&[0x7F])), instr(&[0x80]), f.clone()).is_none());
    assert!(InstructionCounter::restore(instr(&[0x40]), None, instr(&[0xFF]), f).is_some());
}

#[test]
fn counter_clone_keeps_everything() {
    let mut c = InstructionCounter::range(instr(&[0x40]), Some(instr(&[0x7F]))).unwrap();
    c.filter(pattern(&[(0xFF, 0x40)]));
    c.advance(true);
    let d = c.clone();
    assert_eq!(d.current(), c.current());
    assert_eq!(d.from(), c.from());
    assert_eq!(d.to(), c.to());
    assert_eq!(d.num_filters(), 1);
}
