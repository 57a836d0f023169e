//! The reproducible vectors.
use flock_prover::bytes::{write_bytes, write_f128, write_le, write_u32};
use flock_prover::field::F128;
use flock_prover::mle::eval_mle;
use flock_prover::vectors::{
    column_bytes, fold_codeword, fold_pair, fold_vectors, padded_witness, round1_point,
    round1_rng, round1_sizes, round1_stream, row_batch_fold_one, row_batch_vectors, FOLD_SEED,
    Rng, Round1Sizes,
};

#[test]
fn the_generator_is_splitmix() {
    let mut rng = Rng::new(0);
    assert_eq!(rng.next_u64(), 0xE220_A839_7B1D_CDAF);
    assert_eq!(rng.next_u64(), 0x6E78_9E6A_A1B9_65F4);
    let mut again = Rng::new(0);
    let element = again.next_f128();
    assert_eq!(element.lo, 0xE220_A839_7B1D_CDAF);
    assert_eq!(element.hi, 0x6E78_9E6A_A1B9_65F4);
}

#[test]
fn numbers_are_written_little_endian() {
    let mut out = Vec::new();
    write_u32(&mut out, 0x0102_0304);
    write_f128(&mut out, F128 { lo: 5, hi: 6 });
    write_le(&mut out, 0x0708, 3);
    write_bytes(&mut out, &[9]);
    let mut expected = vec![4, 3, 2, 1, 5, 0, 0, 0, 0, 0, 0, 0, 6, 0, 0, 0, 0, 0, 0, 0];
    expected.extend_from_slice(&[8, 7, 0, 9]);
    assert_eq!(out, expected);
}

#[test]
fn lanes_fold_to_their_extension() {
    let mut rng = Rng::new(173);
    let lanes: Vec<F128> = (0..8).map(|_| rng.next_f128()).collect();
    let challenges: Vec<F128> = (0..3).map(|_| rng.next_f128()).collect();
    let reversed: Vec<F128> = challenges.iter().rev().copied().collect();
    assert_eq!(
        row_batch_fold_one(&lanes, &challenges),
        eval_mle(&lanes, &reversed)
    );
}

#[test]
fn a_codeword_folds_pair_by_pair() {
    let mut rng = Rng::new(179);
    let codeword: Vec<F128> = (0..4).map(|_| rng.next_f128()).collect();
    let twiddles: Vec<F128> = (0..2).map(|_| rng.next_f128()).collect();
    let r = rng.next_f128();
    let folded = fold_codeword(&codeword, &twiddles, r);
    assert_eq!(folded.len(), 2);
    assert_eq!(
        folded[1],
        fold_pair(twiddles[1], codeword[2], codeword[3], r)
    );
    // Twiddle zero: the pair's first entry and the sum of both.
    let zero = F128::zero();
    assert_eq!(
        fold_pair(zero, codeword[0], codeword[1], r),
        codeword[0] + r * codeword[1]
    );
}

#[test]
fn streams_have_their_headers_and_sizes() {
    let mut rng = Rng::new(FOLD_SEED);
    let first = rng.next_f128();
    // The first round folds with the last layer, the second with the one below.
    let twiddles = vec![vec![], vec![F128::one(); 2], vec![F128::zero(); 4]];
    let out = fold_vectors(3, 1, &twiddles);
    let mut again = Rng::new(FOLD_SEED);
    let codeword: Vec<F128> = (0..8).map(|_| again.next_f128()).collect();
    let r = again.next_f128();
    let folded = fold_codeword(&codeword, &twiddles[2], r);
    let at = 20 + 8 * 16 + 16 + 4;
    assert_eq!(out[at..at + 8], folded[0].lo.to_le_bytes());
    let r = again.next_f128();
    let folded = fold_codeword(&folded, &twiddles[1], r);
    let at = at + 4 * 16 + 16 + 4;
    assert_eq!(out[at + 8..at + 16], folded[0].hi.to_le_bytes());
    assert_eq!(out.len(), at + 2 * 16);
    assert_eq!(out[..4], 0x464F_4C44u32.to_le_bytes());
    assert_eq!(out[4..8], 3u32.to_le_bytes());
    assert_eq!(out[16..20], 8u32.to_le_bytes());
    assert_eq!(out[20..28], first.lo.to_le_bytes());
    let batch = row_batch_vectors(2, 1);
    assert_ne!(batch[..4], out[..4]);
    let sizes = Round1Sizes {
        m: 8,
        k_skip: 6,
        k_log: 7,
        useful_bits: 100,
    };
    let stream = round1_stream(
        &sizes,
        &[first],
        &[1],
        &[2],
        &[3],
        &[4],
        &[5],
        &[first],
        &[first],
    );
    assert_eq!(stream.len(), 20 + 3 * 16 + 5);
    assert_eq!(stream[..4], 0x5A43_5231u32.to_le_bytes());
    assert_eq!(stream[36..41], [1, 2, 3, 4, 5]);
}

#[test]
fn padding_is_zero_and_the_rest_is_drawn() {
    let mut rng = Rng::new(181);
    let (a, b, c) = padded_witness(&mut rng, 8, 7, 100);
    assert_eq!((a.len(), b.len(), c.len()), (256, 256, 256));
    let mut again = Rng::new(181);
    for i in 0..256 {
        let drawn = if i % 128 < 100 {
            (again.bit(), again.bit(), again.bit())
        } else {
            (false, false, false)
        };
        assert_eq!((a[i], b[i], c[i]), drawn);
    }
    assert_eq!(rng.next_u64(), again.next_u64());
    assert!(a.iter().any(|&x| x) && c.iter().any(|&x| x));
}

#[test]
fn the_first_rounds_point_is_drawn_around_its_fixed_coordinates() {
    assert_eq!(round1_rng(15).state, 0x2ECEC0 ^ (15 << 8));
    let fixed: Vec<F128> = (1..8).map(|lo| F128 { lo, hi: 0 }).collect();
    for m in [13, 15] {
        let mut rng = round1_rng(m);
        let mut again = round1_rng(m);
        let r = round1_point(&mut rng, m, &fixed[..3], &fixed[3..]);
        let mut expected: Vec<F128> = (0..6).map(|_| again.next_f128()).collect();
        expected.extend_from_slice(&fixed);
        expected.extend((13..m).map(|_| again.next_f128()));
        assert_eq!(r, expected);
        assert_eq!(rng.state, again.state);
    }
}

#[test]
fn first_round_sizes_fit_or_are_refused() {
    let sizes = round1_sizes(15, 7, 100).unwrap();
    assert_eq!((sizes.m, sizes.k_skip, sizes.k_log, sizes.useful_bits), (15, 6, 7, 100));
    assert!(round1_sizes(12, 7, 100).is_none());
    assert!(round1_sizes(15, 16, 100).is_none());
    assert!(round1_sizes(15, 7, 129).is_none());
    assert!(round1_sizes(13, 13, 1 << 13).is_some());
}

#[test]
fn columns_are_packed_from_the_lowest_bit() {
    let mut bits = vec![false; 16];
    bits[0] = true;
    bits[3] = true;
    bits[15] = true;
    assert_eq!(column_bytes(&bits), vec![9, 128]);
    assert_eq!(column_bytes(&[]), Vec::<u8>::new());
}
