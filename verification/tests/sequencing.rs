use std::collections::BTreeSet;

use thermite::error::Error;
use thermite::sequencer::{smallest_power_of_two, IOMode, IterationCounter, Sequencer};

fn run_to_the_end(sequencer: &mut Sequencer, limit: usize) -> Vec<u64> {
    let mut offsets = Vec::new();
    while let Some(offset) = sequencer.next_offset() {
        offsets.push(offset);
        assert!(offsets.len() <= limit);
    }
    offsets
}

#[test]
fn sequential_offsets_in_order() {
    let mut sequencer = Sequencer::new(IOMode::Sequential, 0, 4, 512, 0, 0).ok().unwrap();
    assert_eq!(sequencer.next_offset(), Some(0));
    assert_eq!(sequencer.next_offset(), Some(512));
    assert_eq!(sequencer.next_offset(), Some(1024));
    assert_eq!(sequencer.next_offset(), Some(1536));
    // the run ends when an offset exceeds end * block_size; 2048 does not
    assert_eq!(sequencer.next_offset(), Some(2048));
    assert_eq!(sequencer.next_offset(), None);
    assert_eq!(sequencer.next_offset(), None);
}

#[test]
fn sequential_reverse_stops_before_the_first_block() {
    let mut sequencer = Sequencer::new(IOMode::SequentialReverse, 0, 4, 512, 0, 0).ok().unwrap();
    assert_eq!(sequencer.next_offset(), Some(1536));
    assert_eq!(sequencer.next_offset(), Some(1024));
    assert_eq!(sequencer.next_offset(), Some(512));
    assert_eq!(sequencer.next_offset(), None);
    assert_eq!(sequencer.next_offset(), None);
}

#[test]
fn sequential_starts_at_the_first_block() {
    let mut sequencer = Sequencer::new(IOMode::Sequential, 3, 6, 4096, 0, 0).ok().unwrap();
    assert_eq!(run_to_the_end(&mut sequencer, 10), vec![12288, 16384, 20480, 24576]);
}

#[test]
fn sequential_skips_by_the_interval() {
    let mut sequencer = Sequencer::new(IOMode::Sequential, 0, 10, 512, 2, 0).ok().unwrap();
    assert_eq!(run_to_the_end(&mut sequencer, 10), vec![0, 1536, 3072, 4608]);
}

#[test]
fn sequential_reverse_skips_by_the_interval() {
    let mut sequencer = Sequencer::new(IOMode::SequentialReverse, 1, 10, 512, 2, 0).ok().unwrap();
    // blocks 9, 6, 3; block 0 would lie before the first block
    assert_eq!(run_to_the_end(&mut sequencer, 10), vec![4608, 3072, 1536]);
}

#[test]
fn sequential_reverse_ends_when_the_counter_passes_the_range() {
    let mut sequencer = Sequencer::new(IOMode::SequentialReverse, 0, 4, 512, 4, 0).ok().unwrap();
    assert_eq!(sequencer.next_offset(), Some(1536));
    assert_eq!(sequencer.next_offset(), None);
}

#[test]
fn sequential_modes_over_an_empty_range() {
    let mut forward = Sequencer::new(IOMode::Sequential, 5, 5, 512, 0, 0).ok().unwrap();
    assert_eq!(run_to_the_end(&mut forward, 10), vec![2560]);
    let mut backward = Sequencer::new(IOMode::SequentialReverse, 5, 5, 512, 0, 0).ok().unwrap();
    assert_eq!(backward.next_offset(), None);
    let mut nothing = Sequencer::new(IOMode::SequentialReverse, 0, 0, 512, 0, 0).ok().unwrap();
    assert_eq!(nothing.next_offset(), None);
}

#[test]
fn sequential_ends_when_the_counter_outgrows_the_word() {
    let mut sequencer = Sequencer::new(IOMode::Sequential, 0, u64::MAX, 1, u64::MAX, 0).ok().unwrap();
    assert_eq!(sequencer.next_offset(), Some(0));
    // the counter is now 2^64, beyond every block
    assert_eq!(sequencer.iteration(), 0);
    assert_eq!(sequencer.next_offset(), None);
}

#[test]
fn random_offsets_stay_in_range() {
    let mut sequencer = Sequencer::new(IOMode::Random, 10, 20, 512, 0, 0).ok().unwrap();
    let mut seen = BTreeSet::new();
    for _ in 0..1000 {
        let offset = sequencer.next_offset().unwrap();
        assert_eq!(offset % 512, 0);
        assert!(10 * 512 <= offset && offset < 20 * 512);
        seen.insert(offset);
    }
    // a thousand draws from ten blocks do not all fall on one block
    assert!(seen.len() > 1);
}

#[test]
fn random_mode_writes_the_block_that_was_drawn() {
    let mut sequencer = Sequencer::new(IOMode::Random, 10, 20, 512, 0, 0).ok().unwrap();
    assert_eq!(sequencer.next_offset_with(13), Some(13 * 512));
    assert_eq!(sequencer.next_offset_with(19), Some(19 * 512));
    assert_eq!(sequencer.next_offset_with(10), Some(10 * 512));
}

#[test]
fn draw_is_a_block_of_the_range() {
    let sequencer = Sequencer::new(IOMode::Random, 7, 9, 512, 0, 0).ok().unwrap();
    for _ in 0..100 {
        let block = sequencer.draw();
        assert!(block == 7 || block == 8);
    }
    let other = Sequencer::new(IOMode::Sequential, 7, 9, 512, 0, 0).ok().unwrap();
    assert_eq!(other.draw(), 0);
}

#[test]
fn exactly_once_writes_every_block_once() {
    for (start, end) in [(0u64, 1u64), (0, 4), (0, 5), (3, 10), (100, 229), (7, 7), (0, 1000)] {
        for seed in [start, (start + end) / 2, end.saturating_sub(1).max(start)] {
            let mut sequencer =
                Sequencer::new(IOMode::Random100, start, end, 512, 0, seed).ok().unwrap();
            let offsets = run_to_the_end(&mut sequencer, (end - start) as usize);
            assert_eq!(offsets.len() as u64, end - start);
            let blocks: BTreeSet<u64> = offsets.iter().map(|o| o / 512).collect();
            assert!(offsets.iter().all(|o| o % 512 == 0));
            assert_eq!(blocks, (start..end).collect::<BTreeSet<u64>>());
            assert_eq!(sequencer.next_offset(), None);
        }
    }
}

#[test]
fn exactly_once_writes_the_seed_block_first() {
    let mut sequencer = Sequencer::new(IOMode::Random100, 3, 10, 512, 0, 8).ok().unwrap();
    assert_eq!(sequencer.next_offset(), Some(8 * 512));
}

#[test]
fn exactly_once_order_varies_with_the_seed() {
    let mut one = Sequencer::new(IOMode::Random100, 0, 64, 512, 0, 1).ok().unwrap();
    let mut other = Sequencer::new(IOMode::Random100, 0, 64, 512, 0, 2).ok().unwrap();
    let first = run_to_the_end(&mut one, 64);
    let second = run_to_the_end(&mut other, 64);
    assert_ne!(first, second);
    let mut sorted_first = first.clone();
    let mut sorted_second = second.clone();
    sorted_first.sort();
    sorted_second.sort();
    assert_eq!(sorted_first, sorted_second);
}

#[test]
fn exactly_once_follows_the_generator() {
    // eight blocks, seed block 5: the generator runs 5, 2, 3, 0, 1, 6, 7, 4 modulo 8
    let mut sequencer = Sequencer::new(IOMode::Random100, 0, 8, 1, 0, 5).ok().unwrap();
    assert_eq!(run_to_the_end(&mut sequencer, 8), vec![5, 2, 3, 0, 1, 6, 7, 4]);
    // five blocks: the values 5, 6 and 7 are passed over
    let mut narrow = Sequencer::new(IOMode::Random100, 0, 5, 1, 0, 2).ok().unwrap();
    assert_eq!(run_to_the_end(&mut narrow, 5), vec![2, 3, 0, 1, 4]);
}

#[test]
fn exactly_once_does_not_thin_out_with_an_interval() {
    let mut sequencer = Sequencer::new(IOMode::Random100, 2, 12, 512, 3, 4).ok().unwrap();
    let offsets = run_to_the_end(&mut sequencer, 10);
    let blocks: BTreeSet<u64> = offsets.iter().map(|o| o / 512).collect();
    assert_eq!(blocks, (2..12).collect::<BTreeSet<u64>>());
    assert_eq!(offsets.len(), 10);
}

#[test]
fn exactly_once_with_a_drawn_seed() {
    for _ in 0..20 {
        let mut sequencer =
            Sequencer::with_random_seed(IOMode::Random100, 5, 42, 4096, 0).ok().unwrap();
        let offsets = run_to_the_end(&mut sequencer, 37);
        let blocks: BTreeSet<u64> = offsets.iter().map(|o| o / 4096).collect();
        assert_eq!(offsets.len(), 37);
        assert_eq!(blocks, (5..42).collect::<BTreeSet<u64>>());
    }
}

#[test]
fn a_sequencer_knows_what_it_was_made_with() {
    let sequencer = Sequencer::new(IOMode::SequentialReverse, 3, 9, 4096, 2, 0).ok().unwrap();
    assert_eq!(sequencer.mode(), IOMode::SequentialReverse);
    assert_eq!(sequencer.start(), 3);
    assert_eq!(sequencer.end(), 9);
    assert_eq!(sequencer.block_size(), 4096);
    assert_eq!(sequencer.interval(), 2);
}

#[test]
fn iteration_counter_grows_by_one_and_the_interval() {
    let mut sequencer = Sequencer::new(IOMode::Random, 0, 8, 512, 4, 0).ok().unwrap();
    assert_eq!(sequencer.iteration(), 0);
    sequencer.next_offset();
    assert_eq!(sequencer.iteration(), 5);
    sequencer.next_offset();
    assert_eq!(sequencer.iteration(), 10);
}

#[test]
fn iteration_counter_stays_when_the_run_has_ended() {
    let mut sequencer = Sequencer::new(IOMode::Sequential, 0, 1, 512, 0, 0).ok().unwrap();
    assert_eq!(sequencer.next_offset(), Some(0));
    assert_eq!(sequencer.next_offset(), Some(512));
    assert_eq!(sequencer.iteration(), 2);
    assert_eq!(sequencer.next_offset(), None);
    assert_eq!(sequencer.iteration(), 2);
}

#[test]
fn counter_keeps_the_low_bits_and_knows_when_it_wrapped() {
    let mut counter = IterationCounter::new();
    assert_eq!(counter.exact(), Some(0));
    counter.advance(9);
    assert_eq!(counter.exact(), Some(10));
    assert_eq!(counter.low_bits(), 10);
    counter.advance(u64::MAX - 11);
    assert_eq!(counter.exact(), Some(u64::MAX));
    counter.advance(0);
    assert_eq!(counter.exact(), None);
    assert_eq!(counter.low_bits(), 0);
    counter.advance(u64::MAX);
    assert_eq!(counter.exact(), None);
    assert_eq!(counter.low_bits(), 0);
    counter.advance(6);
    assert_eq!(counter.low_bits(), 7);
}

#[test]
fn block_size_must_be_a_power_of_two() {
    assert_eq!(
        Sequencer::new(IOMode::Sequential, 0, 4, 0, 0, 0).err(),
        Some(Error::Configuration)
    );
    assert_eq!(
        Sequencer::new(IOMode::Sequential, 0, 4, 513, 0, 0).err(),
        Some(Error::Configuration)
    );
}

#[test]
fn end_must_not_lie_before_start() {
    assert_eq!(
        Sequencer::new(IOMode::Sequential, 5, 4, 512, 0, 0).err(),
        Some(Error::Configuration)
    );
}

#[test]
fn offsets_must_fit_the_word() {
    assert_eq!(
        Sequencer::new(IOMode::Sequential, 0, u64::MAX, 2, 0, 0).err(),
        Some(Error::Configuration)
    );
    assert!(Sequencer::new(IOMode::Sequential, 0, u64::MAX, 1, 0, 0).is_ok());
}

#[test]
fn random_mode_needs_a_block() {
    assert_eq!(
        Sequencer::new(IOMode::Random, 4, 4, 512, 0, 0).err(),
        Some(Error::Configuration)
    );
    assert_eq!(
        Sequencer::with_random_seed(IOMode::Random, 4, 4, 512, 0).err(),
        Some(Error::Configuration)
    );
}

#[test]
fn seed_must_be_a_block_of_the_range() {
    assert_eq!(
        Sequencer::new(IOMode::Random100, 4, 8, 512, 0, 3).err(),
        Some(Error::Configuration)
    );
    assert_eq!(
        Sequencer::new(IOMode::Random100, 4, 8, 512, 0, 8).err(),
        Some(Error::Configuration)
    );
    assert!(Sequencer::new(IOMode::Random100, 4, 8, 512, 0, 7).is_ok());
    // the other modes do not look at the seed
    assert!(Sequencer::new(IOMode::Sequential, 4, 8, 512, 0, 1000).is_ok());
}

#[test]
fn a_range_beyond_the_largest_modulus_is_a_degenerate_generator() {
    assert_eq!(
        Sequencer::new(IOMode::Random100, 0, (1 << 63) + 1, 1, 0, 0).err(),
        Some(Error::DegenerateGenerator)
    );
    assert!(Sequencer::new(IOMode::Random100, 0, 1 << 63, 1, 0, 0).is_ok());
    assert_eq!(
        Sequencer::with_random_seed(IOMode::Random100, 0, u64::MAX, 1, 0).err(),
        Some(Error::DegenerateGenerator)
    );
}

#[test]
fn smallest_power_of_two_values() {
    assert_eq!(smallest_power_of_two(0), Some(1));
    assert_eq!(smallest_power_of_two(1), Some(1));
    assert_eq!(smallest_power_of_two(2), Some(2));
    assert_eq!(smallest_power_of_two(3), Some(4));
    assert_eq!(smallest_power_of_two(4), Some(4));
    assert_eq!(smallest_power_of_two(5), Some(8));
    assert_eq!(smallest_power_of_two(129), Some(256));
    assert_eq!(smallest_power_of_two(1 << 63), Some(1 << 63));
    assert_eq!(smallest_power_of_two((1 << 63) + 1), None);
    assert_eq!(smallest_power_of_two(u64::MAX), None);
    for n in 1..5000u64 {
        assert_eq!(smallest_power_of_two(n), Some(n.next_power_of_two()));
    }
}
