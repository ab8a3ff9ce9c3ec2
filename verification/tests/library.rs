use external_sort::config::{max_chunk_values, MEMORY_LIMIT_BYTES, U64_BYTES};
use external_sort::dataset::{DataDistribution, DatasetError, DatasetGenerator, XorShift64Star};
use external_sort::heap::MinHeap;
use external_sort::inspect::{format_u64s, preview_plan, PreviewError, PreviewPlan};
use external_sort::io::{decode_u64s, encode_u64s};
use external_sort::phase1::{run_file_name, Phase1Error, RunBuilder};
use external_sort::phase2::{decode_record, merge_batch, merge_pass_count, KWayMerge, MergeError};
use external_sort::text::{decimal_string, zero_padded_decimal};
use external_sort::sort::{sort_in_memory, SortError};
use external_sort::{SortConfig, SortOutputPreview};

fn bytes_of(values: &[u64]) -> Vec<u8> {
    let mut out = Vec::new();
    for v in values {
        out.extend_from_slice(&v.to_le_bytes());
    }
    out
}

fn is_sorted(values: &[u64]) -> bool {
    values.windows(2).all(|w| w[0] <= w[1])
}

fn sorted_copy(values: &[u64]) -> Vec<u64> {
    let mut v = values.to_vec();
    v.sort();
    v
}

#[test]
fn chunk_holds_memory_budget_of_records() {
    assert_eq!(max_chunk_values(), 2_500_000);
    assert_eq!(max_chunk_values(), MEMORY_LIMIT_BYTES / U64_BYTES);
}

#[test]
fn distribution_names_parse() {
    assert_eq!(DataDistribution::parse("random"), Some(DataDistribution::Random));
    assert_eq!(DataDistribution::parse("ascending"), Some(DataDistribution::Ascending));
    assert_eq!(DataDistribution::parse("descending"), Some(DataDistribution::Descending));
    assert_eq!(DataDistribution::parse("Random"), None);
    assert_eq!(DataDistribution::parse("rand"), None);
    assert_eq!(DataDistribution::parse(""), None);
}

#[test]
fn distribution_name_round_trip() {
    for d in [DataDistribution::Random, DataDistribution::Ascending, DataDistribution::Descending] {
        assert_eq!(DataDistribution::parse(d.as_str()), Some(d));
    }
    assert_eq!(DataDistribution::Descending.as_str(), "descending");
}

#[test]
fn xorshift_known_outputs() {
    let mut rng = XorShift64Star::new(1);
    assert_eq!(rng.next_u64(), 5180492295206395165);
    let mut zero = XorShift64Star::new(0);
    assert_eq!(zero.next_u64(), 973819730272012410);
    let mut copy = zero.clone();
    assert_eq!(copy.next_u64(), zero.next_u64());
}

#[test]
fn dataset_ascending_and_descending() {
    let mut asc = DatasetGenerator::new(24, DataDistribution::Ascending, None).unwrap();
    assert_eq!(asc.next_block(), bytes_of(&[1, 2, 3]));
    assert!(asc.next_block().is_empty());
    let mut desc = DatasetGenerator::new(32, DataDistribution::Descending, Some(9)).unwrap();
    assert_eq!(desc.next_block(), bytes_of(&[4, 3, 2, 1]));
    assert!(desc.next_block().is_empty());
}

#[test]
fn dataset_random_follows_generator() {
    let mut gen = DatasetGenerator::new(16, DataDistribution::Random, None).unwrap();
    assert_eq!(gen.next_block(), bytes_of(&[98913543546442568, 14562044955812931457]));
    let mut seeded = DatasetGenerator::new(8, DataDistribution::Random, Some(1)).unwrap();
    assert_eq!(seeded.next_block(), bytes_of(&[5180492295206395165]));
}

#[test]
fn dataset_blocks_are_bounded() {
    let per_block = 16 * 1024 * 64 / 8;
    let mut gen = DatasetGenerator::new((per_block + 3) * 8, DataDistribution::Ascending, None).unwrap();
    let first = gen.next_block();
    assert_eq!(first.len(), per_block * 8);
    let second = gen.next_block();
    assert_eq!(second, bytes_of(&[per_block as u64 + 1, per_block as u64 + 2, per_block as u64 + 3]));
    assert!(gen.next_block().is_empty());
}

#[test]
fn dataset_size_must_be_whole_records() {
    assert_eq!(
        DatasetGenerator::new(7, DataDistribution::Random, None).err(),
        Some(DatasetError::SizeNotMultipleOfRecord)
    );
    let mut empty = DatasetGenerator::new(0, DataDistribution::Ascending, None).unwrap();
    assert!(empty.next_block().is_empty());
}

#[test]
fn records_round_trip() {
    let values = vec![0u64, 1, 0x0102030405060708, u64::MAX];
    let bytes = encode_u64s(&values);
    assert_eq!(bytes, bytes_of(&values));
    assert_eq!(&bytes[16..24], &[8, 7, 6, 5, 4, 3, 2, 1]);
    assert_eq!(decode_u64s(&bytes), Some(values));
    assert_eq!(decode_u64s(&bytes[..12]), None);
    assert_eq!(decode_u64s(&[]), Some(vec![]));
}

#[test]
fn run_records_are_decoded_one_by_one() {
    assert_eq!(decode_record(&[]), Ok(None));
    assert_eq!(decode_record(&42u64.to_le_bytes()), Ok(Some(42)));
    assert_eq!(decode_record(&[1, 2, 3]), Err(MergeError::PartialRecord(3)));
}

#[test]
fn preview_plans() {
    assert_eq!(preview_plan(80, 10), Ok(PreviewPlan { read_count: 10, tail_offset: 0 }));
    assert_eq!(preview_plan(800, 10), Ok(PreviewPlan { read_count: 10, tail_offset: 720 }));
    assert_eq!(preview_plan(24, 10), Ok(PreviewPlan { read_count: 3, tail_offset: 0 }));
    assert_eq!(preview_plan(0, 10), Ok(PreviewPlan { read_count: 0, tail_offset: 0 }));
    assert_eq!(preview_plan(81, 10), Err(PreviewError::SizeNotMultipleOfRecord));
}

#[test]
fn formats_values() {
    assert_eq!(format_u64s(&[1, 22, 333]), "1, 22, 333");
    assert_eq!(format_u64s(&[]), "");
    assert_eq!(format_u64s(&[0]), "0");
    assert_eq!(format_u64s(&[u64::MAX, 10]), "18446744073709551615, 10");
}

#[test]
fn decimal_text() {
    assert_eq!(decimal_string(0), "0");
    assert_eq!(decimal_string(1234567890), "1234567890");
    assert_eq!(zero_padded_decimal(42, 5), "00042");
    assert_eq!(zero_padded_decimal(123456, 5), "123456");
    assert_eq!(zero_padded_decimal(0, 0), "0");
}

#[test]
fn file_names() {
    assert_eq!(run_file_name(0), "run_00000.bin");
    assert_eq!(run_file_name(7), "run_00007.bin");
    assert_eq!(run_file_name(123456), "run_123456.bin");
    assert_eq!(run_file_name(42), format!("run_{:05}.bin", 42));
}

#[test]
fn heap_hands_out_least_first() {
    let mut heap = MinHeap::new();
    for e in [(5u64, 0usize), (3, 2), (9, 1), (3, 1), (0, 4), (7, 3)] {
        heap.push(e);
    }
    assert_eq!(heap.len(), 6);
    let mut out = Vec::new();
    while let Some(e) = heap.pop() {
        out.push(e);
    }
    assert_eq!(out, vec![(0, 4), (3, 1), (3, 2), (5, 0), (7, 3), (9, 1)]);
    assert!(heap.is_empty());
    assert_eq!(heap.pop(), None);
}

#[test]
fn merge_of_sorted_runs_is_sorted() {
    let runs = vec![vec![1u64, 4, 9], vec![], vec![2, 3, 10, 11], vec![0, 4]];
    let out = merge_batch(&runs).unwrap();
    assert_eq!(out, vec![0, 1, 2, 3, 4, 4, 9, 10, 11]);
}

#[test]
fn merge_of_no_runs_is_refused() {
    assert_eq!(merge_batch(&vec![]), Err(MergeError::NoRuns));
    assert!(matches!(KWayMerge::start(&vec![]), Err(MergeError::NoRuns)));
}

#[test]
fn merge_keeps_every_value() {
    let runs = vec![vec![5u64, 1], vec![3, 3, 2]];
    let out = merge_batch(&runs).unwrap();
    assert_eq!(sorted_copy(&out), vec![1, 2, 3, 3, 5]);
    assert_eq!(merge_batch(&vec![vec![], vec![]]), Ok(vec![]));
}

#[test]
fn streaming_merge_steps() {
    let mut merge = KWayMerge::start(&vec![Some(4), None, Some(1)]).unwrap();
    assert_eq!(merge.next_entry(), Some((1, 2)));
    merge.refill(2, Some(6));
    assert_eq!(merge.next_entry(), Some((4, 0)));
    merge.refill(0, None);
    assert_eq!(merge.next_entry(), Some((6, 2)));
    merge.refill(2, None);
    assert_eq!(merge.next_entry(), None);
}

/// Feeds values to a builder as phase 1 does and collects the runs it hands out.
fn cut_runs(builder: &mut RunBuilder, values: &[u64]) -> Vec<Vec<u64>> {
    let mut runs = Vec::new();
    let mut next = 0;
    while next < values.len() {
        next = builder.fill(values, next);
        if builder.is_full() {
            builder.sort_pending();
            runs.push(builder.pending_values().clone());
            builder.clear();
        }
    }
    runs
}

fn finish(builder: &mut RunBuilder) -> Option<Vec<u64>> {
    if builder.is_empty() {
        return None;
    }
    builder.sort_pending();
    Some(builder.pending_values().clone())
}

#[test]
fn run_builder_fills_up_to_capacity() {
    let mut builder = RunBuilder::new(3).unwrap();
    assert_eq!(builder.fill(&[9, 7], 0), 2);
    assert!(!builder.is_full());
    assert_eq!(builder.fill(&[5, 8, 3, 1], 1), 2);
    assert!(builder.is_full());
    assert_eq!(builder.pending_values(), &vec![9, 7, 8]);
    builder.sort_pending();
    assert_eq!(builder.pending_values(), &vec![7, 8, 9]);
    builder.clear();
    assert!(builder.is_empty());
    assert_eq!(builder.fill(&[4], 1), 1);
}

#[test]
fn run_builder_cuts_and_sorts() {
    let mut builder = RunBuilder::new(3).unwrap();
    let runs = cut_runs(&mut builder, &[9, 7, 8, 3, 1, 2, 5]);
    assert_eq!(runs, vec![vec![7, 8, 9], vec![1, 2, 3]]);
    let more = cut_runs(&mut builder, &[4]);
    assert!(more.is_empty());
    assert_eq!(finish(&mut builder), Some(vec![4, 5]));
    let mut empty = RunBuilder::new(3).unwrap();
    assert_eq!(finish(&mut empty), None);
    assert_eq!(RunBuilder::new(0).err(), Some(Phase1Error::ZeroCapacity));
}

#[test]
fn runs_sort_large_chunks() {
    let mut rng = XorShift64Star::new(77);
    let values: Vec<u64> = (0..5000).map(|_| rng.next_u64()).collect();
    let mut builder = RunBuilder::new(1000).unwrap();
    let mut runs = cut_runs(&mut builder, &values);
    assert_eq!(runs.len(), 5);
    for (i, run) in runs.iter().enumerate() {
        assert!(is_sorted(run));
        assert_eq!(run, &sorted_copy(&values[i * 1000..(i + 1) * 1000]));
    }
    assert_eq!(finish(&mut builder), None);
    runs.push(vec![]);
    let merged = merge_batch(&runs).unwrap();
    assert_eq!(merged, sorted_copy(&values));
}

#[test]
fn merge_is_one_pass() {
    assert_eq!(merge_pass_count(0), Err(MergeError::NoRuns));
    assert_eq!(merge_pass_count(1), Ok(1));
    assert_eq!(merge_pass_count(5), Ok(1));
    assert_eq!(merge_pass_count(1000), Ok(1));
}

#[test]
fn whole_sort_in_memory() {
    // Phase 1 with a small chunk, then one merge of every run.
    let mut gen = DatasetGenerator::new(8 * 37, DataDistribution::Random, Some(5)).unwrap();
    let input = decode_u64s(&gen.next_block()).unwrap();
    let mut builder = RunBuilder::new(4).unwrap();
    let mut runs = cut_runs(&mut builder, &decode_u64s(&encode_u64s(&input)).unwrap());
    if let Some(last) = finish(&mut builder) {
        runs.push(last);
    }
    assert_eq!(runs.len(), 10);
    assert_eq!(merge_pass_count(runs.len()), Ok(1));
    let output = merge_batch(&runs).unwrap();
    assert_eq!(output, sorted_copy(&input));
    let preview = SortOutputPreview { first_values: output[..3].to_vec(), last_values: output[34..].to_vec() };
    assert_eq!(preview.first_values.len(), 3);
    let config = SortConfig { thread_count: 2, fan_in_factor: 2 };
    assert_eq!(config.fan_in_factor, 2);
}

#[test]
fn same_values_sort_the_same() {
    let a = vec![5u64, 3, 9, 3, 1];
    let b = vec![3u64, 1, 9, 5, 3];
    let out_a = merge_batch(&vec![sorted_copy(&a[..2]), sorted_copy(&a[2..])]).unwrap();
    let out_b = merge_batch(&vec![sorted_copy(&b[..3]), sorted_copy(&b[3..])]).unwrap();
    assert_eq!(encode_u64s(&out_a), encode_u64s(&out_b));
    assert_eq!(merge_batch(&vec![out_a.clone()]).unwrap(), out_a);
}

#[test]
fn formatted_values_read_back() {
    let values = [0u64, 17, u64::MAX, 300];
    let text = format_u64s(&values);
    let back: Vec<u64> = text.split(", ").map(|s| s.parse::<u64>().unwrap()).collect();
    assert_eq!(back, values.to_vec());
}

#[test]
fn merge_of_unsorted_runs_follows_heap_order() {
    let runs = vec![vec![5u64, 1], vec![5, 9]];
    assert_eq!(merge_batch(&runs).unwrap(), vec![5, 1, 5, 9]);
    let runs = vec![vec![7u64, 2, 8], vec![3, 1]];
    assert_eq!(merge_batch(&runs).unwrap(), vec![3, 1, 7, 2, 8]);
}

#[test]
fn in_memory_sort() {
    let mut rng = XorShift64Star::new(3);
    let values: Vec<u64> = (0..1003).map(|_| rng.next_u64() % 50).collect();
    let (sorted, runs) = sort_in_memory(&values, 100).unwrap();
    assert_eq!(sorted, sorted_copy(&values));
    assert_eq!(runs, 11);
    let mut reversed = values.clone();
    reversed.reverse();
    assert_eq!(sort_in_memory(&reversed, 100).unwrap(), (sorted.clone(), 11));
    assert_eq!(sort_in_memory(&sorted, 1000).unwrap(), (sorted.clone(), 2));
    assert_eq!(sort_in_memory(&[4, 2], 2).unwrap(), (vec![2, 4], 1));
    assert_eq!(sort_in_memory(&[], 4), Err(SortError::Merge(MergeError::NoRuns)));
    assert_eq!(sort_in_memory(&[1], 0), Err(SortError::Phase1(Phase1Error::ZeroCapacity)));
}
