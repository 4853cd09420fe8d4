use akita_types::digits::{CommitInnerWitness, DigitBlocks};
use akita_types::inner_outer::{
    for_each_outer_slice_input, outer_slice_inputs, validate_commit_inner_shape, SliceInputSink,
};
use akita_types::slice::{CommitmentSliceCount, CommitmentSliceGeometry};
use akita_types::AkitaError;

const D: usize = 64;

fn inner_witness(recomposed_blocks: usize, rows_per_block: usize) -> CommitInnerWitness {
    CommitInnerWitness::from_rows(vec![vec![vec![0u64; D]; rows_per_block]; recomposed_blocks], D)
        .expect("inner witness")
}

#[test]
fn commit_inner_shape_accepts_expected_layout() {
    let inner = inner_witness(2, 3);
    validate_commit_inner_shape(&inner, 2, 3, D).expect("shape should match");
}

#[test]
fn commit_inner_shape_rejects_bad_block_count() {
    let inner = inner_witness(1, 3);
    assert!(validate_commit_inner_shape(&inner, 2, 3, D).is_err());
}

#[test]
fn commit_inner_shape_rejects_bad_row_count() {
    let inner = inner_witness(2, 2);
    assert!(validate_commit_inner_shape(&inner, 2, 3, D).is_err());
}

#[test]
fn commit_inner_shape_accepts_many_all_zero_blocks() {
    let num_live_blocks = 1024;
    let inner = inner_witness(num_live_blocks, 3);
    validate_commit_inner_shape(&inner, num_live_blocks, 3, D).expect("all-zero blocks");
}

#[test]
fn outer_slice_inputs_are_polynomial_major_and_zero_padded() {
    let first =
        DigitBlocks::new(vec![10, 11, 12, 13, 14], vec![1; 5], 1).expect("first digit blocks");
    let second =
        DigitBlocks::new(vec![20, 21, 22, 23, 24], vec![1; 5], 1).expect("second digit blocks");
    let geometry = CommitmentSliceGeometry::try_new(CommitmentSliceCount::TWO, 5, 2, 1, 1, 1, 1)
        .expect("slice geometry");

    let inputs = outer_slice_inputs(&[&first, &second], &geometry).expect("slice inputs");
    assert_eq!(
        inputs,
        vec![vec![10, 11, 0, 20, 21, 0], vec![12, 13, 14, 22, 23, 24],]
    );
}

struct BufferAddresses {
    width: usize,
    addresses: Vec<usize>,
    log: Vec<Vec<i8>>,
    answers: Vec<Result<(), AkitaError>>,
}

impl SliceInputSink for BufferAddresses {
    fn handed(&self) -> Vec<Vec<i8>> {
        self.log.clone()
    }

    fn answers(&self) -> Vec<Result<(), AkitaError>> {
        self.answers.clone()
    }

    fn accepts_all(&self) -> bool {
        true
    }

    fn consume(&mut self, input: &[i8]) -> Result<(), AkitaError> {
        self.log.push(input.to_vec());
        assert_eq!(input.len(), self.width);
        self.addresses.push(input.as_ptr() as usize);
        self.answers.push(Ok(()));
        Ok(())
    }
}

#[test]
fn outer_slice_stream_reuses_one_physical_width_buffer() {
    let digits = DigitBlocks::new((0..13).collect(), vec![1; 13], 1).expect("digit blocks");
    let geometry = CommitmentSliceGeometry::try_new(CommitmentSliceCount::FOUR, 13, 1, 1, 1, 1, 1)
        .expect("slice geometry");
    let planes = digits.typed_planes(1).expect("typed planes");
    let mut sink = BufferAddresses {
        width: geometry.physical_input_width(),
        addresses: Vec::new(),
        log: Vec::new(),
        answers: Vec::new(),
    };

    for_each_outer_slice_input(&[planes], &geometry, &mut sink).expect("stream slices");

    assert_eq!(sink.addresses.len(), 4);
    assert!(sink.addresses.windows(2).all(|pair| pair[0] == pair[1]));
}

#[test]
fn sliced_b_images_match_independent_block_diagonal_oracle_for_all_counts() {
    const BLOCKS: usize = 9;
    const POLYS: usize = 2;
    const PER_BLOCK: usize = 2;
    const ROWS: usize = 3;

    let polynomial_digits = (0..POLYS)
        .map(|polynomial| {
            let digits = (0..BLOCKS * PER_BLOCK)
                .map(|index| (1 + polynomial * 31 + index) as i8)
                .collect::<Vec<_>>();
            DigitBlocks::new(digits, vec![PER_BLOCK; BLOCKS], 1).unwrap()
        })
        .collect::<Vec<_>>();

    for slice_count in CommitmentSliceCount::ALL {
        let geometry =
            CommitmentSliceGeometry::try_new(slice_count, BLOCKS, POLYS, PER_BLOCK, 1, 1, 1)
                .unwrap();
        let matrix = (0..ROWS)
            .map(|row| {
                (0..geometry.physical_input_width())
                    .map(|column| 1 + (row as i64 + 1) * 17 + column as i64)
                    .collect::<Vec<_>>()
            })
            .collect::<Vec<_>>();
        let production_inputs =
            outer_slice_inputs(&polynomial_digits.iter().collect::<Vec<_>>(), &geometry).unwrap();
        let production_image = production_inputs
            .iter()
            .flat_map(|input| {
                let matrix = &matrix;
                matrix.iter().map(move |row| {
                    row.iter()
                        .zip(input)
                        .map(|(&matrix_entry, digit)| matrix_entry * i64::from(*digit))
                        .sum::<i64>()
                })
            })
            .collect::<Vec<_>>();

        let slices = slice_count.get();
        let max_blocks = BLOCKS.div_ceil(slices);
        let mut oracle_image = Vec::with_capacity(slices * ROWS);
        for slice_index in 0..slices {
            let start = BLOCKS * slice_index / slices;
            let end = BLOCKS * (slice_index + 1) / slices;
            for row in &matrix {
                let mut image = 0i64;
                for polynomial in 0..POLYS {
                    for global_block in start..end {
                        let local_block = global_block - start;
                        for offset in 0..PER_BLOCK {
                            let physical_column =
                                (polynomial * max_blocks + local_block) * PER_BLOCK + offset;
                            let digit = 1 + polynomial * 31 + global_block * PER_BLOCK + offset;
                            image += row[physical_column] * digit as i64;
                        }
                    }
                }
                oracle_image.push(image);
            }
        }
        assert_eq!(production_image, oracle_image);

        let production_compressed = production_image
            .iter()
            .enumerate()
            .map(|(index, &value)| (index as i64 + 3) * value)
            .sum::<i64>();
        let oracle_compressed = oracle_image
            .iter()
            .enumerate()
            .map(|(index, &value)| (index as i64 + 3) * value)
            .sum::<i64>();
        assert_eq!(production_compressed, oracle_compressed);
    }
}
