use lisa_enumeration::counter::InstructionCounter;
use lisa_enumeration::encoding::Encoding;
use lisa_enumeration::error::Error;
use lisa_enumeration::filter::{ByteFilter, Filter};
use lisa_enumeration::instruction::Instruction;
use lisa_enumeration::partition::{check_seeds, range_of, start_of};
use lisa_enumeration::seeds::default_seeds;
use lisa_enumeration::sorting::collect_sorted;
use lisa_enumeration::work::{Outcome, Work, WorkerRecord};
use lisa_enumeration::worker::{EnumWorker, Probe};

fn instr(bytes: &[u8]) -> Instruction {
    Instruction::new(bytes.to_vec()).expect("between one and fifteen bytes")
}

fn pattern(bytes: &[(u8, u8)]) -> Filter {
    let patterns = bytes.iter().map(|(mask, value)| ByteFilter::new(*mask, *value).unwrap()).collect();
    Filter::new(patterns).expect("a filter")
}

// Thirteen bytes `FF` and then `tail`.
fn deep(tail: &[u8]) -> Instruction {
    let mut bytes = vec![0xFF; 13];
    bytes.extend_from_slice(tail);
    instr(&bytes)
}

fn encoding_of(representative: &Instruction, filters: Vec<Filter>) -> Encoding {
    Encoding::new(representative.clone(), representative.clone(), filters, Vec::new()).unwrap()
}

// An oracle that depends on the instruction alone: an instruction of
// fourteen bytes is classified by the first instruction that extends it, an
// instruction of fifteen bytes whose last byte is a multiple of four by the
// four instructions that share its other bits, and every other instruction
// fails.
fn classify(i: &Instruction) -> Outcome {
    let mut bytes = i.bytes().clone();
    if bytes.len() == 14 {
        bytes.push(0x00);
    }
    if bytes.len() == 15 && bytes[14] % 4 == 0 {
        let mut patterns: Vec<ByteFilter> = bytes.iter().map(|b| ByteFilter::exact(*b)).collect();
        patterns[14] = ByteFilter::new(0xFC, bytes[14]).unwrap();
        let representative = instr(&bytes);
        Outcome::Classified(encoding_of(&representative, vec![Filter::new(patterns).unwrap()]))
    } else {
        Outcome::Failed
    }
}

// Drives all workers in turn until each is done or `limit` outcomes are
// recorded. Returns the number of outcomes.
fn drive(work: &mut Work, limit: usize) -> usize {
    let mut outcomes = 0;
    let workers = work.workers().len();
    while outcomes < limit && !work.all_done() {
        for k in 0..workers {
            if outcomes == limit {
                break;
            }
            if let Probe::Classify(i) = work.next_probe(k).unwrap() {
                work.complete(k, classify(&i)).unwrap();
                outcomes += 1;
            }
        }
    }
    outcomes
}

// The state as a save and a load would carry it over: every part is copied
// out and the enumeration is put together again from the copies.
fn checkpoint(work: &Work) -> Work {
    let mut workers = Vec::new();
    for record in work.workers() {
        let inner = record.inner();
        let counter = InstructionCounter::restore(
            inner.counter().from().clone(),
            inner.counter().to().clone(),
            inner.counter().current().clone(),
            inner.counter().filters().clone(),
        )
        .unwrap();
        let worker = EnumWorker::restore(
            counter,
            inner.unique_sequences(),
            inner.next().clone(),
            inner.instrs_seen().clone(),
            inner.instrs_failed().clone(),
            inner.fast_tunnel(),
        )
        .unwrap();
        workers.push(WorkerRecord::restore(record.id(), worker, record.artifacts_produced(), record.done()));
    }
    Work::restore(workers, work.artifacts().clone(), work.seconds_running()).unwrap()
}

fn deep_seeds() -> Vec<Instruction> {
    vec![deep(&[0xFC]), deep(&[0xFD]), deep(&[0xFD, 0x80]), deep(&[0xFE]), deep(&[0xFF])]
}

fn positions(work: &Work) -> Vec<Instruction> {
    work.workers().iter().map(|w| w.inner().counter().current().clone()).collect()
}

fn filter_sets(work: &Work) -> Vec<Vec<Vec<ByteFilter>>> {
    work.workers()
        .iter()
        .map(|w| w.inner().counter().filters().iter().map(|f| f.bytes().clone()).collect())
        .collect()
}

#[test]
fn four_workers_share_the_single_byte_seeds_evenly() {
    let seeds = default_seeds();
    let work = Work::create(&seeds, 4).unwrap();
    assert_eq!(work.workers().len(), 4);
    assert!(work.artifacts().is_empty());
    assert_eq!(work.seconds_running(), 0);
    for (k, w) in work.workers().iter().enumerate() {
        assert_eq!(w.id(), k);
        assert_eq!(w.from(), &instr(&[(64 * k) as u8]));
        assert_eq!(w.inner().counter().current(), w.from());
        assert_eq!(w.inner().counter().from(), w.from());
        assert_eq!(w.inner().counter().to(), w.to());
        assert_eq!(w.artifacts_produced(), 0);
        assert!(!w.done());
        let owned: Vec<u8> = (0..=255u8).filter(|b| w.owns(&instr(&[*b]))).collect();
        let expected: Vec<u8> = ((64 * k) as u8..=(64 * k + 63) as u8).collect();
        assert_eq!(owned, expected);
    }
    let mut end = vec![0xFF; 15];
    end[0] = 0x3F;
    assert_eq!(work.workers()[0].to(), &Some(instr(&end)));
    assert_eq!(work.workers()[3].to(), &None);
}

#[test]
fn ranges_cover_every_seed_once_and_adjoin() {
    let seeds = default_seeds();
    for count in [1usize, 2, 3, 5, 7, 64, 255, 256] {
        let work = Work::create(&seeds, count).unwrap();
        let workers = work.workers();
        assert_eq!(workers.len(), count);
        assert_eq!(workers[0].from(), &seeds[0]);
        for (i, seed) in seeds.iter().enumerate() {
            let owners: Vec<usize> = (0..count).filter(|k| workers[*k].owns(seed)).collect();
            assert_eq!(owners.len(), 1);
            let k = owners[0];
            assert!(start_of(k, seeds.len(), count) <= i && i < start_of(k + 1, seeds.len(), count));
        }
        for k in 0..count {
            let width = start_of(k + 1, seeds.len(), count) - start_of(k, seeds.len(), count);
            assert!(width == 256 / count || width == 256 / count + 1);
            match workers[k].to() {
                Some(to) => {
                    assert!(workers[k].from().le(to));
                    assert_eq!(&to.successor().unwrap(), workers[k + 1].from());
                }
                None => assert_eq!(k, count - 1),
            }
        }
        let probes = [instr(&[0x00]), instr(&[0x3F, 0xFF, 0x01]), instr(&[0x80; 15]), instr(&[0xFF; 15])];
        for p in &probes {
            assert_eq!((0..count).filter(|k| workers[*k].owns(p)).count(), 1);
        }
    }
}

#[test]
fn chunk_starts_split_evenly() {
    assert_eq!(start_of(0, 256, 4), 0);
    assert_eq!(start_of(3, 256, 4), 192);
    assert_eq!(start_of(4, 256, 4), 256);
    assert_eq!(start_of(1, 10, 3), 3);
    assert_eq!(start_of(2, 10, 3), 6);
    assert_eq!(start_of(3, 10, 3), 10);
    assert_eq!(start_of(2, usize::MAX, 2), usize::MAX);
    assert_eq!(start_of(1, usize::MAX, 2), usize::MAX / 2);
    let seeds = default_seeds();
    let (from, to) = range_of(&seeds, 4, 1);
    assert_eq!(from, instr(&[0x40]));
    let mut end = vec![0xFF; 15];
    end[0] = 0x7F;
    assert_eq!(to, Some(instr(&end)));
    assert_eq!(range_of(&seeds, 4, 3).1, None);
}

#[test]
fn create_refuses_what_cannot_be_split() {
    let seeds = default_seeds();
    assert_eq!(Work::create(&seeds, 0).err(), Some(Error::NoWorkers));
    assert_eq!(Work::create(&seeds, 257).err(), Some(Error::NotEnoughSeeds));
    assert_eq!(Work::create(&Vec::new(), 1).err(), Some(Error::NotEnoughSeeds));
    assert_eq!(Work::create(&Vec::new(), 0).err(), Some(Error::NoWorkers));
    let twice = vec![instr(&[0x00]), instr(&[0x00])];
    assert_eq!(Work::create(&twice, 1).err(), Some(Error::UnorderedSeeds));
    let falling = vec![instr(&[0x00]), instr(&[0x02]), instr(&[0x01, 0xFF])];
    assert_eq!(Work::create(&falling, 2).err(), Some(Error::UnorderedSeeds));
    assert_eq!(check_seeds(&falling, 4), Err(Error::NotEnoughSeeds));
    assert_eq!(check_seeds(&seeds, 256), Ok(()));
}

#[test]
fn artifacts_get_rising_indices_and_keep_them() {
    let mut work = Work::create(&deep_seeds(), 2).unwrap();
    work.set_fast_tunnel(0, true).unwrap();
    work.set_fast_tunnel(1, true).unwrap();
    let mut recorded: Vec<Vec<u8>> = Vec::new();
    let mut expected_index = 0;
    for step in 0..40 {
        let k = step % 2;
        let i = match work.next_probe(k).unwrap() {
            Probe::Classify(i) => i,
            Probe::Done => continue,
        };
        let outcome = classify(&i);
        let representative = match &outcome {
            Outcome::Classified(e) => Some(e.instr().bytes().clone()),
            Outcome::Failed => None,
        };
        let index = work.complete(k, outcome).unwrap();
        match representative {
            Some(bytes) => {
                assert_eq!(index, Some(expected_index));
                expected_index += 1;
                recorded.push(bytes);
            }
            None => assert_eq!(index, None),
        }
        assert_eq!(work.artifacts().len(), recorded.len());
        for (at, bytes) in recorded.iter().enumerate() {
            assert_eq!(work.artifacts()[at].instr().bytes(), bytes);
        }
    }
    assert!(recorded.len() >= 10);
    let produced: usize = work.workers().iter().map(|w| w.artifacts_produced()).sum();
    assert_eq!(produced, recorded.len());
    assert_eq!(work.unique_sequences(), recorded.len() as u128);

    work.reset_worker(0).unwrap();
    work.rebuild_filters();
    work.reset_instrs_seen();
    let restored = checkpoint(&work);
    for (at, bytes) in recorded.iter().enumerate() {
        assert_eq!(work.artifacts()[at].instr().bytes(), bytes);
        assert_eq!(restored.artifacts()[at].instr().bytes(), bytes);
    }
    assert_eq!(restored.artifacts().len(), recorded.len());
}

#[test]
fn operations_on_a_missing_worker_are_refused() {
    let mut work = Work::create(&default_seeds(), 2).unwrap();
    assert_eq!(work.next_probe(2).err(), Some(Error::IndexOutOfRange));
    assert_eq!(work.complete(2, Outcome::Failed).err(), Some(Error::IndexOutOfRange));
    assert_eq!(work.reset_worker(2), Err(Error::IndexOutOfRange));
    assert_eq!(work.resume_worker(7), Err(Error::IndexOutOfRange));
    assert_eq!(work.set_fast_tunnel(usize::MAX, true), Err(Error::IndexOutOfRange));
    assert_eq!(work.complete(1, Outcome::Failed).err(), Some(Error::NothingPending));
    let i = instr(&[0x00]);
    let e = encoding_of(&i, vec![Filter::exact(&i)]);
    assert_eq!(work.complete(0, Outcome::Classified(e)).err(), Some(Error::NothingPending));
    assert!(work.artifacts().is_empty());
    assert_eq!(work.workers()[0].artifacts_produced(), 0);
}

#[test]
fn a_run_ends_with_every_worker_done() {
    let mut work = Work::create(&deep_seeds(), 3).unwrap();
    for k in 0..3 {
        work.set_fast_tunnel(k, true).unwrap();
    }
    let outcomes = drive(&mut work, usize::MAX);
    assert!(work.all_done());
    // Four prefixes of fourteen bytes: each is classified by its first
    // extension, which covers four instructions, and then 63 more classes of
    // four follow.
    assert_eq!(work.artifacts().len(), 4 * 64);
    assert_eq!(outcomes, 4 * 64);
    assert_eq!(work.unique_sequences(), 4 * 64);
    for w in work.workers() {
        assert!(w.done());
        assert!(w.inner().instrs_failed().is_empty());
        assert!(matches!(w.inner().next(), None));
    }
    for k in 0..3 {
        assert!(matches!(work.next_probe(k).unwrap(), Probe::Done));
    }
}

#[test]
fn a_run_with_a_stop_ends_like_a_run_without() {
    let mut whole = Work::create(&deep_seeds(), 3).unwrap();
    drive(&mut whole, usize::MAX);
    for stop in [0usize, 1, 17, 100, 255, 256] {
        let mut first = Work::create(&deep_seeds(), 3).unwrap();
        drive(&mut first, stop);
        if stop == 17 {
            // A probe that is out when the state is saved is given out again.
            let _ = first.next_probe(1).unwrap();
        }
        let mut second = checkpoint(&first);
        assert_eq!(second.artifacts().len(), first.artifacts().len());
        assert_eq!(positions(&second), positions(&first));
        drive(&mut second, usize::MAX);
        assert!(second.all_done());
        assert_eq!(second.artifacts().len(), whole.artifacts().len());
        assert_eq!(positions(&second), positions(&whole));
        assert_eq!(filter_sets(&second), filter_sets(&whole));
    }
}

#[test]
fn a_snapshot_is_in_the_state_of_the_enumeration() {
    let mut work = Work::create(&deep_seeds(), 3).unwrap();
    work.set_fast_tunnel(1, true).unwrap();
    drive(&mut work, 50);
    let _ = work.next_probe(2).unwrap();
    work.add_running_time(12);
    for copy in [work.snapshot(), work.clone(), checkpoint(&work)] {
        assert_eq!(positions(&copy), positions(&work));
        assert_eq!(filter_sets(&copy), filter_sets(&work));
        assert_eq!(copy.artifacts().len(), work.artifacts().len());
        assert_eq!(copy.seconds_running(), 12);
        assert_eq!(copy.unique_sequences(), work.unique_sequences());
        for (a, b) in copy.workers().iter().zip(work.workers()) {
            assert_eq!(a.id(), b.id());
            assert_eq!(a.from(), b.from());
            assert_eq!(a.to(), b.to());
            assert_eq!(a.done(), b.done());
            assert_eq!(a.artifacts_produced(), b.artifacts_produced());
            assert_eq!(a.inner().next(), b.inner().next());
            assert_eq!(a.inner().instrs_seen(), b.inner().instrs_seen());
            assert_eq!(a.inner().instrs_failed(), b.inner().instrs_failed());
            assert_eq!(a.inner().fast_tunnel(), b.inner().fast_tunnel());
        }
        for (a, b) in copy.artifacts().iter().zip(work.artifacts()) {
            assert_eq!(a.instr(), b.instr());
            assert_eq!(a.filters().len(), b.filters().len());
        }
    }
    assert!(work.workers()[2].inner().next().is_some());
}

#[test]
fn reset_puts_the_worker_at_its_start_and_keeps_the_artifacts() {
    let mut work = Work::create(&deep_seeds(), 2).unwrap();
    drive(&mut work, 30);
    let before = work.artifacts().len();
    let produced = work.workers()[1].artifacts_produced();
    assert!(before > 0);
    assert!(work.workers()[1].from().lt(work.workers()[1].inner().counter().current()));
    work.reset_worker(1).unwrap();
    let w = &work.workers()[1];
    assert_eq!(w.inner().counter().current(), w.from());
    assert_eq!(w.inner().counter().num_filters(), 0);
    assert!(w.inner().instrs_seen().is_empty());
    assert!(!w.done());
    assert_eq!(w.artifacts_produced(), produced);
    assert_eq!(work.artifacts().len(), before);
    let other = &work.workers()[0];
    assert!(other.inner().counter().num_filters() > 0);

    drive(&mut work, usize::MAX);
    assert!(work.artifacts().len() >= before);
    assert!(work.all_done());
}

#[test]
fn reset_after_the_end_runs_the_range_again() {
    let mut work = Work::create(&deep_seeds(), 2).unwrap();
    drive(&mut work, usize::MAX);
    let first = work.artifacts().len();
    let share = work.workers()[0].artifacts_produced();
    work.reset_worker(0).unwrap();
    assert!(!work.all_done());
    drive(&mut work, usize::MAX);
    assert_eq!(work.artifacts().len(), first + share);
    assert_eq!(work.workers()[0].artifacts_produced(), 2 * share);
}

#[test]
fn resume_clears_the_done_flag_only() {
    let mut work = Work::create(&deep_seeds(), 2).unwrap();
    drive(&mut work, usize::MAX);
    let at = positions(&work);
    let filters = filter_sets(&work);
    let artifacts = work.artifacts().len();
    work.resume_worker(1).unwrap();
    assert!(!work.workers()[1].done());
    assert!(work.workers()[0].done());
    assert_eq!(positions(&work), at);
    assert_eq!(filter_sets(&work), filters);
    assert!(matches!(work.next_probe(1).unwrap(), Probe::Done));
    assert!(work.workers()[1].done());
    assert_eq!(work.artifacts().len(), artifacts);
}

#[test]
fn reset_instrs_seen_empties_every_list() {
    let mut work = Work::create(&deep_seeds(), 2).unwrap();
    drive(&mut work, 20);
    assert!(work.workers().iter().all(|w| !w.inner().instrs_seen().is_empty()));
    let at = positions(&work);
    work.reset_instrs_seen();
    assert!(work.workers().iter().all(|w| w.inner().instrs_seen().is_empty()));
    assert_eq!(positions(&work), at);
}

#[test]
fn rebuilding_twice_gives_the_same_filters() {
    let mut work = Work::create(&deep_seeds(), 3).unwrap();
    drive(&mut work, 90);
    let artifacts = work.artifacts().len();
    let at = positions(&work);
    work.rebuild_filters();
    let once = filter_sets(&work);
    let counts: Vec<usize> = work.workers().iter().map(|w| w.inner().counter().num_filters()).collect();
    assert_eq!(counts, vec![artifacts; 3]);
    work.rebuild_filters();
    assert_eq!(filter_sets(&work), once);
    let again: Vec<usize> = work.workers().iter().map(|w| w.inner().counter().num_filters()).collect();
    assert_eq!(again, counts);
    assert_eq!(positions(&work), at);
    assert_eq!(work.artifacts().len(), artifacts);
    for set in &once {
        assert_eq!(set, &once[0]);
    }
}

#[test]
fn rebuilt_filters_come_in_the_order_of_their_first_match() {
    let a = instr(&[0x90]);
    let b = instr(&[0x48, 0x89]);
    let c = instr(&[0x48, 0x01]);
    let artifacts = vec![
        encoding_of(&a, vec![pattern(&[(0xFF, 0x90)])]),
        encoding_of(&b, vec![pattern(&[(0xF0, 0x40), (0xFF, 0x89)]), pattern(&[(0xF8, 0x48)])]),
        encoding_of(&c, vec![pattern(&[(0xFF, 0x48), (0xFF, 0x01)]), pattern(&[(0x00, 0x00)])]),
        encoding_of(&b, vec![pattern(&[(0xF8, 0x48), (0x00, 0x00)])]),
    ];
    let sorted = collect_sorted(&artifacts);
    let firsts: Vec<Vec<u8>> = sorted.iter().map(|f| f.smallest_matching_instruction().bytes().clone()).collect();
    assert_eq!(
        firsts,
        vec![vec![0x00], vec![0x40, 0x89], vec![0x48], vec![0x48, 0x00], vec![0x48, 0x01], vec![0x90]]
    );
    assert_eq!(sorted[2].bytes(), pattern(&[(0xF8, 0x48)]).bytes());
}

#[test]
fn running_time_adds_up_and_stays_at_the_top() {
    let mut work = Work::create(&default_seeds(), 1).unwrap();
    work.add_running_time(59);
    work.add_running_time(3541);
    assert_eq!(work.seconds_running(), 3600);
    work.add_running_time(u64::MAX - 10);
    assert_eq!(work.seconds_running(), u64::MAX);
    work.add_running_time(1);
    assert_eq!(work.seconds_running(), u64::MAX);
    assert_eq!(checkpoint(&work).seconds_running(), u64::MAX);
}

#[test]
fn restore_refuses_parts_that_do_not_fit() {
    let record = |id: usize, produced: usize| {
        let worker = EnumWorker::new(instr(&[0x00]), None).unwrap();
        WorkerRecord::restore(id, worker, produced, false)
    };
    assert!(Work::restore(vec![record(0, 0)], vec![], 5).is_ok());
    assert_eq!(Work::restore(vec![record(1, 0)], vec![], 5).err(), Some(Error::InvalidState));
    assert_eq!(Work::restore(vec![record(0, 1)], vec![], 5).err(), Some(Error::InvalidState));
    let i = instr(&[0x00]);
    let artifacts = vec![encoding_of(&i, vec![Filter::exact(&i)])];
    let work = Work::restore(vec![record(0, 1), record(1, 0)], artifacts, 5).unwrap();
    assert_eq!(work.workers()[0].artifacts_produced(), 1);
    assert_eq!(work.seconds_running(), 5);
    assert_eq!(work.unique_sequences(), 0);
    let full = |n: u128| {
        let counter = InstructionCounter::range(instr(&[0x00]), None).unwrap();
        EnumWorker::restore(counter, n, None, vec![], vec![], false).unwrap()
    };
    let workers = vec![WorkerRecord::restore(0, full(u128::MAX - 1), 0, true), WorkerRecord::restore(1, full(5), 0, true)];
    let top = Work::restore(workers, vec![], 0).unwrap();
    assert_eq!(top.unique_sequences(), u128::MAX);
    assert!(top.all_done());
}
