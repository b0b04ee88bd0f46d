use rustracer::accel::{blas_batch_ends, build_input_totals, BuildInput, BuildSizes, ALLOW_COMPACTION, BATCH_LIMIT};

fn input(size: u64, scratch: u64, flags: u32) -> BuildInput {
    BuildInput {
        flags,
        sizes: BuildSizes { acceleration_structure_size: size, build_scratch_size: scratch },
    }
}

#[test]
fn totals_sum_sizes_and_count_compaction() {
    let inputs = vec![
        input(100, 10, ALLOW_COMPACTION),
        input(200, 30, 1),
        input(50, 5, ALLOW_COMPACTION | 1),
    ];
    assert_eq!(build_input_totals(&inputs), (45, 350, 2));
    assert_eq!(build_input_totals(&vec![]), (0, 0, 0));
}

#[test]
fn batches_end_at_limit_and_at_last() {
    let inputs = vec![input(40, 0, 0), input(70, 0, 0), input(10, 0, 0), input(1, 0, 0)];
    // running sums 40, 110, 120, 121: the limit 100 is reached from the second on
    assert_eq!(blas_batch_ends(&inputs, 100), vec![1, 2, 3]);
    assert_eq!(blas_batch_ends(&inputs, 1000), vec![3]);
    assert_eq!(blas_batch_ends(&vec![], BATCH_LIMIT), Vec::<usize>::new());
    assert_eq!(blas_batch_ends(&vec![input(BATCH_LIMIT, 0, 0), input(1, 0, 0)], BATCH_LIMIT), vec![0, 1]);
}
