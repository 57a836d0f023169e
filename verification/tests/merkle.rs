//! Merkle paths as rows, and proofs of many leaves.
use flock_prover::field::F128;
use flock_prover::merkle_octopus::merkle_multi_proof;
use flock_prover::merkle_r1cs::csc::csc_from_rows;
use flock_prover::merkle_r1cs::witness::{
    children, parent_digest, read_digest, read_digest_words, reference_root, write_digest,
    BlockRows, PathInput,
};
use flock_prover::merkle_r1cs::{
    blake3_fixed_bits, blake3_spec, Blake3Bases, Blake3Block, HashSpec, MerkleTreeLayout, SLOT_BITS,
};
use flock_prover::prover::schedule::{
    check_matrix_inputs, check_table_inputs, TableRefusal, Transport, WitnessLayout,
};
use flock_prover::r1cs::SparseBinaryMatrix;
use flock_prover::vectors::Rng;

const MSG: usize = 1;
const CV: usize = 513;
const OUT: usize = 769;
const USEFUL: usize = 1025;

/// A base block whose digest is the bitwise product of its children.
fn product_spec() -> HashSpec {
    let mut a = vec![Vec::new(); 2048];
    let mut b = vec![Vec::new(); 2048];
    for c in 0..OUT {
        a[c] = vec![c];
        b[c] = vec![0];
    }
    for j in 0..SLOT_BITS {
        a[OUT + j] = vec![MSG + j];
        b[OUT + j] = vec![MSG + 256 + j];
    }
    let matrix = |rows: Vec<Vec<usize>>| SparseBinaryMatrix {
        num_rows: 2048,
        num_cols: 2048,
        rows,
    };
    HashSpec {
        name: "product",
        k_log: 11,
        useful_bits: USEFUL,
        z_const_pos: 0,
        in_cv_base: CV,
        out_cv_base: OUT,
        msg_base: MSG,
        flags: 4,
        a: matrix(a),
        b: matrix(b),
        fixed_bits: (0..SLOT_BITS).map(|j| (CV + j, j % 3 == 0)).collect(),
    }
}

fn product_block(left: &[u32; 8], right: &[u32; 8]) -> Vec<bool> {
    let mut block = vec![false; USEFUL];
    block[0] = true;
    write_digest(&mut block, MSG, left);
    write_digest(&mut block, MSG + 256, right);
    for j in 0..SLOT_BITS {
        block[CV + j] = j % 3 == 0;
        block[OUT + j] = block[MSG + j] && block[MSG + 256 + j];
    }
    block
}

fn product_blocks(input: &PathInput) -> (Vec<Vec<bool>>, [u32; 8]) {
    let mut prev = input.leaf;
    let mut blocks = Vec::new();
    for level in 0..input.siblings.len() {
        let (left, right) = children(input, level, &prev);
        let block = product_block(&left, &right);
        prev = read_digest(&block, OUT);
        blocks.push(block);
    }
    (blocks, prev)
}

fn pack(bits: &[bool]) -> Vec<u64> {
    let mut words = vec![0; bits.len().div_ceil(64)];
    for (i, &b) in bits.iter().enumerate() {
        if b {
            words[i / 64] |= 1 << (i % 64);
        }
    }
    words
}

fn block_rows(spec: &HashSpec, block: &[bool]) -> BlockRows {
    let eval = |row: &[usize]| row.iter().fold(false, |acc, &c| acc ^ block[c]);
    let a: Vec<bool> = (0..USEFUL).map(|c| eval(&spec.a.rows[c])).collect();
    let b: Vec<bool> = (0..USEFUL).map(|c| eval(&spec.b.rows[c])).collect();
    BlockRows {
        z: pack(block),
        a: pack(&a),
        b: pack(&b),
    }
}

fn path(index: u64) -> PathInput {
    let digest = |seed: u32| std::array::from_fn(|i| !(seed << i));
    PathInput {
        leaf: digest(1),
        index,
        siblings: vec![digest(3), digest(7)],
    }
}

/// A block of two children that carries their BLAKE3 parent.
fn hashed_block(left: &[u32; 8], right: &[u32; 8]) -> Vec<bool> {
    let mut block = product_block(left, right);
    write_digest(&mut block, OUT, &parent_digest(left, right));
    block
}

#[test]
fn a_witness_over_hashed_blocks_has_the_native_root() {
    let layout = MerkleTreeLayout::new(2, product_spec());
    for index in 0..4 {
        let input = path(index);
        let mut prev = input.leaf;
        let mut blocks = Vec::new();
        for level in 0..2 {
            let (left, right) = children(&input, level, &prev);
            let block = hashed_block(&left, &right);
            prev = read_digest(&block, OUT);
            blocks.push(block);
        }
        let z = layout.build_witness(&input, &blocks);
        assert_eq!(layout.read_root(&z), prev);
        assert_eq!(reference_root(&product_spec(), hashed_block, &input), prev);
    }
}

#[test]
fn a_path_satisfies_its_rows_and_its_root_is_the_fold() {
    let layout = MerkleTreeLayout::new(2, product_spec());
    assert_eq!(layout.k(), 4096);
    let r1cs = layout.build_block_r1cs(0);
    assert_eq!((r1cs.m, r1cs.k_log), (12, 12));
    for index in 0..4 {
        let input = path(index);
        let (blocks, root) = product_blocks(&input);
        let z = layout.build_witness(&input, &blocks);
        assert!(r1cs.satisfies(&z));
        assert_eq!(layout.read_root(&z), root);
        // Another backend is another node function.
        assert_eq!(reference_root(&product_spec(), product_block, &input), root);
        for column in [
            layout.index_bit(0),
            layout.t_bit(1, 5),
            layout.root_bit(9),
            layout.hash_bit(0, MSG),
            layout.hash_bit(1, CV + 1),
        ] {
            let mut wrong = z.clone();
            wrong[column] = !wrong[column];
            assert!(!r1cs.satisfies(&wrong), "column {column}");
        }
    }
    let shape = r1cs.table_shape();
    assert_eq!((shape.m, shape.k_log), (12, 12));
    assert!(shape.layout == WitnessLayout::BatchMajor && shape.third_is_identity);
    assert_eq!(
        check_matrix_inputs(&shape, 32, 12),
        Some(TableRefusal::NotRowMajor)
    );
    assert_eq!(check_table_inputs(&shape, Transport::Jagged), None);
    let stub = layout.build_block_r1cs_stub(0);
    assert_eq!(stub.table_shape().layout, WitnessLayout::BatchMajor);
    assert!(stub.a_0.rows.iter().all(|row| row.is_empty()));
    assert_eq!(stub.useful_bits, r1cs.useful_bits);
}

#[test]
fn the_row_witness_is_the_matrices_action() {
    let layout = MerkleTreeLayout::new(2, product_spec());
    let (a_0, b_0) = layout.build_matrices();
    let input = path(2);
    let (blocks, _) = product_blocks(&input);
    let rows: Vec<BlockRows> = blocks
        .iter()
        .map(|block| block_rows(&layout.spec, block))
        .collect();
    let [z, a, b] = layout.build_witness_zab(&input, &rows);
    assert_eq!(z, layout.build_witness(&input, &blocks));
    for r in 0..layout.k() {
        let av = a_0.rows[r].iter().fold(false, |acc, &c| acc ^ z[c]);
        let bv = b_0.rows[r].iter().fold(false, |acc, &c| acc ^ z[c]);
        assert_eq!((av, bv), (a[r], b[r]), "row {r}");
    }

    // A batch of two paths in eight rows.
    let other = path(1);
    let (other_blocks, _) = product_blocks(&other);
    let other_rows: Vec<BlockRows> = other_blocks
        .iter()
        .map(|block| block_rows(&layout.spec, block))
        .collect();
    let second = layout.build_witness(&other, &other_blocks);
    let (bz, ba, _bb, stripe) =
        layout.generate_witness_batch_major_partial(&[input, other], &[rows, other_rows], 3);
    let at = |words: &[F128], i: usize, c: usize| {
        let word = words[(c / 128) * 8 + i];
        let limb = if c % 128 < 64 { word.lo } else { word.hi };
        (limb >> (c % 64)) & 1 == 1
    };
    for c in 0..layout.k() {
        assert_eq!(at(&bz, 0, c), z[c]);
        assert_eq!(at(&bz, 1, c), second[c]);
        assert!(!at(&bz, 2, c));
        assert_eq!(at(&ba, 0, c), a[c]);
        assert_eq!(
            stripe[c],
            u8::from(z[c]) | (u8::from(second[c]) << 1)
        );
    }
}

#[test]
fn the_walker_folds_as_the_matrices_do() {
    let layout = MerkleTreeLayout::new(2, product_spec());
    let (a_0, b_0) = layout.build_matrices();
    let walker = layout.build_walker();
    let mut rng = Rng::new(157);
    let alpha = rng.next_f128();
    let eq: Vec<F128> = (0..layout.k()).map(|_| rng.next_f128()).collect();
    let mut expected = vec![F128::zero(); layout.k()];
    for (r, weight) in eq.iter().enumerate() {
        for &c in &a_0.rows[r] {
            expected[c] = expected[c] + alpha * *weight;
        }
        for &c in &b_0.rows[r] {
            expected[c] = expected[c] + *weight;
        }
    }
    assert_eq!(walker.fold_alpha_batched(alpha, &eq), expected);
    let entries: usize = a_0.rows.iter().chain(&b_0.rows).map(Vec::len).sum();
    assert_eq!(walker.effective_nnz(), entries);
    assert!(walker.resident_bytes() < 8 * entries + 16 * (layout.k() + 1));
    assert_eq!(walker.decode(0), None);
    assert_eq!(walker.decode(walker.hash_base(1) + 7), Some((1, 7)));
}

#[test]
fn columns_list_their_rows() {
    let m = SparseBinaryMatrix {
        num_rows: 3,
        num_cols: 3,
        rows: vec![vec![2, 0], vec![], vec![2]],
    };
    assert_eq!(csc_from_rows(&m), (vec![0, 1, 1, 3], vec![0, 0, 2]));
}

fn words_of(bytes: &[u8; 32]) -> [u32; 8] {
    std::array::from_fn(|i| u32::from_le_bytes(bytes[4 * i..4 * i + 4].try_into().unwrap()))
}

#[test]
fn parents_are_the_hash_functions_parents() {
    let (left, right) = ([5u8; 32], [9u8; 32]);
    let merged = blake3::hazmat::merge_subtrees_non_root(
        &left,
        &right,
        blake3::hazmat::Mode::Hash,
    );
    assert_eq!(
        parent_digest(&words_of(&left), &words_of(&right)),
        words_of(&merged)
    );
    let input = PathInput {
        leaf: words_of(&left),
        index: 1,
        siblings: vec![words_of(&right)],
    };
    assert_eq!(
        reference_root(&product_spec(), hashed_block, &input),
        words_of(&merged)
    );
}

#[test]
fn fixed_bits_pin_the_parent_call() {
    let bits = blake3_fixed_bits(&Blake3Bases {
        cv: 0,
        t_lo: 256,
        t_hi: 288,
        blen: 320,
        flags: 352,
    });
    assert_eq!(bits.len(), 384);
    let word = |base: usize| (0..32).fold(0u32, |w, b| w | (u32::from(bits[base + b].1) << b));
    assert_eq!(word(0), 0x6A09_E667);
    assert_eq!(word(256), 0);
    assert_eq!(word(320), 64);
    assert_eq!(word(352), 4);
    assert_eq!(bits[383].0, 383);
}

#[test]
fn shared_siblings_are_left_out() {
    // Leaves 0..4, then their parents 4, 5, then the root 6.
    let tree: Vec<[u8; 32]> = (0..7).map(|i| [i as u8; 32]).collect();
    let proof = |positions: &[usize]| -> Vec<u8> {
        merkle_multi_proof(&tree, 4, positions)
            .iter()
            .map(|node| node[0])
            .collect()
    };
    assert_eq!(proof(&[0]), vec![1, 5]);
    assert_eq!(proof(&[3]), vec![2, 4]);
    assert_eq!(proof(&[0, 1]), vec![5]);
    assert_eq!(proof(&[2, 0, 2]), vec![1, 3]);
    assert!(proof(&[0, 1, 2, 3]).is_empty());
    assert!(proof(&[]).is_empty());
}

#[test]
fn digests_are_read_from_bits_and_from_words() {
    let digest: [u32; 8] = std::array::from_fn(|i| 0x9E37_79B9_u32.wrapping_mul(i as u32 + 1));
    let mut bits = vec![false; 320];
    write_digest(&mut bits, 37, &digest);
    assert_eq!(read_digest(&bits, 37), digest);
    let mut words = vec![0_u64; 5];
    for (i, &set) in bits.iter().enumerate() {
        words[i / 64] |= u64::from(set) << (i % 64);
    }
    assert_eq!(read_digest_words(&words, 37), digest);
    assert_ne!(read_digest_words(&words, 36), digest);
}

#[test]
fn the_blake3_spec_pins_its_inputs() {
    let empty = || SparseBinaryMatrix {
        num_rows: 2048,
        num_cols: 2048,
        rows: vec![Vec::new(); 2048],
    };
    let inputs = Blake3Bases {
        cv: 0,
        t_lo: 1024,
        t_hi: 1056,
        blen: 1088,
        flags: 1120,
    };
    let spec = blake3_spec(Blake3Block {
        k_log: 11,
        useful_bits: 1200,
        z_const_pos: 1152,
        inputs,
        out_lo: 256,
        msg: 512,
        a: empty(),
        b: empty(),
    });
    assert_eq!(spec.name, "blake3");
    assert_eq!((spec.in_cv_base, spec.out_cv_base, spec.msg_base), (0, 256, 512));
    assert_eq!(spec.flags, 4);
    assert_eq!(spec.fixed_bits, blake3_fixed_bits(&inputs));
}
