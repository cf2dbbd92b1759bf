use lisa_enumeration::counter::InstructionCounter;
use lisa_enumeration::encoding::{Encoding, Output};
use lisa_enumeration::error::Error;
use lisa_enumeration::filter::{ByteFilter, Filter};
use lisa_enumeration::instruction::Instruction;
use lisa_enumeration::worker::{EnumWorker, Probe, FAILED_CAPACITY, SEEN_CAPACITY};

fn instr(bytes: &[u8]) -> Instruction {
    Instruction::new(bytes.to_vec()).expect("between one and fifteen bytes")
}

fn pattern(bytes: &[(u8, u8)]) -> Filter {
    let patterns = bytes.iter().map(|(mask, value)| ByteFilter::new(*mask, *value).unwrap()).collect();
    Filter::new(patterns).expect("a filter")
}

// Thirteen bytes `FF` and then `tail`.
fn deep(tail: &[u8]) -> Instruction {
    let mut bytes = vec![0xFF; 13];
    bytes.extend_from_slice(tail);
    instr(&bytes)
}

fn encoding_of(representative: &Instruction, filters: Vec<Filter>) -> Encoding {
    Encoding::new(representative.clone(), representative.clone(), filters, Vec::new()).unwrap()
}

fn expect_classify(probe: Probe) -> Instruction {
    match probe {
        Probe::Classify(i) => i,
        Probe::Done => panic!("the range is not exhausted"),
    }
}

#[test]
fn encoding_new_wants_filters_that_match_the_instruction() {
    let i = instr(&[0x48, 0x89, 0xC3]);
    let good = pattern(&[(0xF8, 0x48), (0xFF, 0x89)]);
    let bad = pattern(&[(0xFF, 0x90)]);
    let outputs = vec![Output { num_inputs: 2, memory_access: false }];
    let e = Encoding::new(i.clone(), instr(&[0x48, 0x89, 0xC0]), vec![good.clone()], outputs.clone()).unwrap();
    assert_eq!(e.instr(), &i);
    assert_eq!(e.best_instr(), &instr(&[0x48, 0x89, 0xC0]));
    assert_eq!(e.filters().len(), 1);
    assert_eq!(e.outputs(), &outputs);
    for f in e.filters() {
        assert!(f.matches(e.instr()));
    }
    let none = Encoding::new(i.clone(), i.clone(), vec![], vec![]);
    assert_eq!(none.err(), Some(Error::NoFilters));
    let mismatch = Encoding::new(i.clone(), i.clone(), vec![good, bad], vec![]);
    assert_eq!(mismatch.err(), Some(Error::FilterMismatch));
    let copy = e.clone();
    assert_eq!(copy.instr(), e.instr());
    assert_eq!(copy.outputs(), e.outputs());
}

#[test]
fn encoding_counts_memory_accesses_and_inputs() {
    let i = instr(&[0x01]);
    let outputs = vec![
        Output { num_inputs: 2, memory_access: true },
        Output { num_inputs: 5, memory_access: false },
        Output { num_inputs: 3, memory_access: true },
    ];
    let e = Encoding::new(i.clone(), i.clone(), vec![Filter::exact(&i)], outputs).unwrap();
    assert_eq!(e.num_memory_accesses(), 2);
    assert_eq!(e.max_inputs(), 5);
    let bare = encoding_of(&i, vec![Filter::exact(&i)]);
    assert_eq!(bare.num_memory_accesses(), 0);
    assert_eq!(bare.max_inputs(), 0);
}

#[test]
fn new_worker_stands_at_the_start_of_its_range() {
    let w = EnumWorker::new(instr(&[0x40]), Some(instr(&[0x7F]))).unwrap();
    assert_eq!(w.counter().current(), &instr(&[0x40]));
    assert_eq!(w.counter().num_filters(), 0);
    assert_eq!(w.unique_sequences(), 0);
    assert_eq!(w.next(), &None);
    assert!(w.instrs_seen().is_empty());
    assert!(w.instrs_failed().is_empty());
    assert!(!w.fast_tunnel());
    assert!(EnumWorker::new(instr(&[0x40]), Some(instr(&[0x3F]))).is_none());
}

#[test]
fn first_probe_is_the_start_of_the_range() {
    let mut w = EnumWorker::new(instr(&[0x40]), None).unwrap();
    assert_eq!(expect_classify(w.next_probe()), instr(&[0x40]));
    assert_eq!(w.next(), &Some(instr(&[0x40])));
    assert_eq!(expect_classify(w.next_probe()), instr(&[0x40]));
    assert_eq!(w.counter().current(), &instr(&[0x40]));
}

#[test]
fn record_without_a_probe_is_refused() {
    let mut w = EnumWorker::new(instr(&[0x40]), None).unwrap();
    let i = instr(&[0x40]);
    let e = encoding_of(&i, vec![Filter::exact(&i)]);
    assert_eq!(w.record_encoding(&e), Err(Error::NothingPending));
    assert_eq!(w.record_failure(), Err(Error::NothingPending));
    assert_eq!(w.counter().num_filters(), 0);
    assert_eq!(w.unique_sequences(), 0);
}

#[test]
fn recording_an_encoding_adds_its_filters_and_moves_on() {
    let mut w = EnumWorker::new(instr(&[0x50]), Some(instr(&[0x5F]))).unwrap();
    w.set_fast_tunnel(true);
    let probed = expect_classify(w.next_probe());
    assert_eq!(probed, instr(&[0x50]));
    let e = encoding_of(&probed, vec![pattern(&[(0xF8, 0x50)])]);
    assert_eq!(w.record_encoding(&e), Ok(false));
    assert_eq!(w.unique_sequences(), 1);
    assert_eq!(w.next(), &None);
    assert_eq!(w.counter().num_filters(), 1);
    assert_eq!(w.counter().current(), &instr(&[0x58]));
    assert!(w.has_seen(&instr(&[0x50])));
    assert!(w.instrs_failed().is_empty());
    assert_eq!(expect_classify(w.next_probe()), instr(&[0x58]));
    let pop = encoding_of(&instr(&[0x58]), vec![pattern(&[(0xF8, 0x58)])]);
    assert_eq!(w.record_encoding(&pop), Ok(true));
    assert_eq!(w.unique_sequences(), 2);
    assert!(matches!(w.next_probe(), Probe::Done));
}

#[test]
fn recording_a_failure_covers_the_failed_instruction() {
    let mut w = EnumWorker::new(instr(&[0x06]), Some(instr(&[0x07]))).unwrap();
    w.set_fast_tunnel(true);
    assert_eq!(expect_classify(w.next_probe()), instr(&[0x06]));
    assert_eq!(w.record_failure(), Ok(false));
    assert_eq!(w.instrs_failed(), &vec![instr(&[0x06])]);
    assert_eq!(w.unique_sequences(), 0);
    assert_eq!(w.counter().num_filters(), 1);
    assert!(w.counter().is_covered(&instr(&[0x06])));
    assert!(w.counter().filters()[0].matches(&instr(&[0x06])));
    assert_eq!(expect_classify(w.next_probe()), instr(&[0x07]));
    assert_eq!(w.record_failure(), Ok(true));
    assert!(matches!(w.next_probe(), Probe::Done));
    assert_eq!(w.instrs_failed().len(), 2);
}

#[test]
fn a_seen_instruction_is_passed_over_without_a_probe() {
    let counter = InstructionCounter::restore(deep(&[0xFE, 0xFD]), None, deep(&[0xFE, 0xFD]), Vec::new()).unwrap();
    let seen = vec![deep(&[0xFE, 0xFD]), deep(&[0xFE, 0xFE])];
    let mut w = EnumWorker::restore(counter, 7, None, seen, Vec::new(), false).unwrap();
    assert_eq!(w.unique_sequences(), 7);
    assert_eq!(expect_classify(w.next_probe()), deep(&[0xFE, 0xFF]));
    assert_eq!(w.counter().current(), &deep(&[0xFE, 0xFF]));
    w.clear_seen();
    assert!(w.instrs_seen().is_empty());
}

#[test]
fn an_exhausted_worker_stays_where_it_is() {
    let from = deep(&[0xFF, 0xFE]);
    let counter = InstructionCounter::restore(from.clone(), None, from.clone(), Vec::new()).unwrap();
    let seen = vec![deep(&[0xFF, 0xFE]), deep(&[0xFF, 0xFF])];
    let mut w = EnumWorker::restore(counter, 0, None, seen, Vec::new(), true).unwrap();
    assert!(matches!(w.next_probe(), Probe::Done));
    assert_eq!(w.counter().current(), &from);
    assert_eq!(w.next(), &None);
}

#[test]
fn restore_checks_the_parts() {
    let counter = || InstructionCounter::restore(instr(&[0x10]), None, instr(&[0x20]), Vec::new()).unwrap();
    assert!(EnumWorker::restore(counter(), 0, Some(instr(&[0x20])), vec![], vec![], false).is_some());
    assert!(EnumWorker::restore(counter(), 0, Some(instr(&[0x21])), vec![], vec![], false).is_none());
    let many = vec![instr(&[0x01]); SEEN_CAPACITY + 1];
    assert!(EnumWorker::restore(counter(), 0, None, many, vec![], false).is_none());
    let failed = vec![instr(&[0x01]); FAILED_CAPACITY + 1];
    assert!(EnumWorker::restore(counter(), 0, None, vec![], failed, false).is_none());
    let full = vec![instr(&[0x01]); FAILED_CAPACITY];
    assert!(EnumWorker::restore(counter(), 0, None, vec![], full, true).unwrap().fast_tunnel());
}

#[test]
fn reset_goes_back_to_the_start_and_forgets() {
    let mut w = EnumWorker::new(instr(&[0x50]), Some(instr(&[0x5F]))).unwrap();
    w.set_fast_tunnel(true);
    let probed = expect_classify(w.next_probe());
    let e = encoding_of(&probed, vec![pattern(&[(0xF8, 0x50)])]);
    w.record_encoding(&e).unwrap();
    expect_classify(w.next_probe());
    w.record_failure().unwrap();
    assert!(w.counter().current().lt(&instr(&[0x60])));
    w.reset();
    assert_eq!(w.counter().current(), &instr(&[0x50]));
    assert_eq!(w.counter().from(), &instr(&[0x50]));
    assert_eq!(w.counter().to(), &Some(instr(&[0x5F])));
    assert_eq!(w.counter().num_filters(), 0);
    assert_eq!(w.next(), &None);
    assert!(w.instrs_seen().is_empty());
    assert_eq!(w.unique_sequences(), 1);
    assert_eq!(w.instrs_failed().len(), 1);
    assert_eq!(expect_classify(w.next_probe()), instr(&[0x50]));
}

#[test]
fn reload_filters_replaces_and_compacts() {
    let mut w = EnumWorker::new(instr(&[0x00]), None).unwrap();
    w.set_fast_tunnel(true);
    expect_classify(w.next_probe());
    w.record_failure().unwrap();
    assert_eq!(w.counter().num_filters(), 1);
    let position = w.counter().current().clone();
    let filters = vec![pattern(&[(0xF0, 0x40)]), pattern(&[(0xFF, 0x48)]), pattern(&[(0xFF, 0x90)])];
    w.reload_filters(&filters);
    assert_eq!(w.counter().num_filters(), 2);
    assert_eq!(w.counter().filters()[0].bytes(), filters[0].bytes());
    assert_eq!(w.counter().filters()[1].bytes(), filters[2].bytes());
    assert_eq!(w.counter().current(), &position);
    assert!(!w.counter().is_covered(&instr(&[0x00])));
}

// Classifies an instruction of fourteen bytes by the first instruction that
// extends it, and fails on every other instruction.
fn run_failing(w: &mut EnumWorker) -> usize {
    let mut probes = 0;
    loop {
        let i = match w.next_probe() {
            Probe::Classify(i) => i,
            Probe::Done => return probes,
        };
        probes += 1;
        if i.len() == 14 {
            let mut bytes = i.bytes().clone();
            bytes.push(0x00);
            let first = instr(&bytes);
            w.record_encoding(&encoding_of(&first, vec![Filter::exact(&first)])).unwrap();
        } else {
            w.record_failure().unwrap();
        }
    }
}

#[test]
fn failed_instructions_are_kept_up_to_the_capacity() {
    let mut w = EnumWorker::new(deep(&[0xFA]), None).unwrap();
    w.set_fast_tunnel(true);
    let probes = run_failing(&mut w);
    assert_eq!(probes, 6 * 256);
    assert_eq!(w.unique_sequences(), 6);
    assert_eq!(w.instrs_failed().len(), FAILED_CAPACITY);
    assert_eq!(w.instrs_failed()[0], deep(&[0xFA, 0x01]));
    assert_eq!(w.counter().num_filters(), 6 * 256);
    assert_eq!(w.instrs_seen().len(), 6 * 256);
}

#[test]
fn seen_instructions_are_kept_up_to_the_capacity() {
    let mut w = EnumWorker::new(deep(&[0xEE]), None).unwrap();
    w.set_fast_tunnel(true);
    let probes = run_failing(&mut w);
    assert_eq!(probes, 18 * 256);
    assert_eq!(w.instrs_seen().len(), SEEN_CAPACITY);
    assert_eq!(w.instrs_seen()[0], deep(&[0xEE]));
    assert!(!w.has_seen(&deep(&[0xFF, 0xFF])));
    assert!(w.has_seen(&deep(&[0xEE, 0x10])));
}

#[test]
fn walking_with_and_without_leaps_visits_the_same_instructions() {
    let mut visited: Vec<Vec<Instruction>> = Vec::new();
    for tunnel in [false, true] {
        let mut w = EnumWorker::new(deep(&[0xFD]), Some(deep(&[0xFF, 0x7F]))).unwrap();
        w.set_fast_tunnel(tunnel);
        let mut probes = Vec::new();
        loop {
            let i = match w.next_probe() {
                Probe::Classify(i) => i,
                Probe::Done => break,
            };
            if i.len() == 15 && i.bytes()[14] % 16 == 0 {
                let mut patterns: Vec<ByteFilter> = i.bytes().iter().map(|b| ByteFilter::exact(*b)).collect();
                patterns[14] = ByteFilter::new(0xF0, i.bytes()[14]).unwrap();
                let f = Filter::new(patterns).unwrap();
                w.record_encoding(&encoding_of(&i, vec![f])).unwrap();
            } else if i.len() == 14 {
                let mut bytes = i.bytes().clone();
                bytes.push(0x00);
                let first = instr(&bytes);
                let mut patterns: Vec<ByteFilter> = bytes.iter().map(|b| ByteFilter::exact(*b)).collect();
                patterns[14] = ByteFilter::new(0xF0, 0x00).unwrap();
                w.record_encoding(&encoding_of(&first, vec![Filter::new(patterns).unwrap()])).unwrap();
            } else {
                w.record_failure().unwrap();
            }
            probes.push(i);
        }
        visited.push(probes);
    }
    assert_eq!(visited[0], visited[1]);
    assert_eq!(visited[0].len(), 16 + 16 + 8);
    assert_eq!(visited[0][0], deep(&[0xFD]));
    assert_eq!(visited[0][1], deep(&[0xFD, 0x10]));
}
