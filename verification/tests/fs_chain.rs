//! The traced transcript hash against the hash function itself.
use flock_prover::blake3::iv;
use flock_prover::fs_chain::{
    CvSource, FsChain, FsChainSponge, Link, CHAIN_ABSORB, CHAIN_SQUEEZE,
};

/// Every finalize must equal reference BLAKE3's extended output of the same
/// prefix, at lengths that straddle every boundary the tree has.
#[test]
fn every_finalize_matches_reference_blake3() {
    let data: Vec<u8> = (0..70_000u32)
        .map(|i| (i.wrapping_mul(2654435761) >> 13) as u8)
        .collect();

    let lengths = [
        0usize, 1, 63, 64, 65, 127, 128, 1023, 1024, 1025, 2047, 2048, 2049, 3072, 5000, 16_384,
        16_385, 40_000, 65_536, 65_537,
    ];
    for &len in &lengths {
        for &out_bytes in &[16usize, 32, 64, 65, 3888] {
            let mut c = FsChain::new();
            c.absorb(&data[..len]);
            let got = c.finalize(out_bytes);

            let mut want = vec![0u8; out_bytes];
            let mut h = blake3::Hasher::new();
            h.update(&data[..len]);
            h.finalize_xof().fill(&mut want);

            assert_eq!(got, want, "len={len}, out_bytes={out_bytes}");
        }
    }
}

/// Forking a finalize must not disturb the live chain: absorbing more after a
/// squeeze still hashes the whole prefix correctly.
#[test]
fn finalizing_does_not_disturb_the_live_chain() {
    let data: Vec<u8> = (0..5000u32).map(|i| i as u8).collect();
    let mut c = FsChain::new();
    let stops = [100usize, 1024, 1100, 3000, 5000];
    let mut at = 0usize;
    for &s in &stops {
        c.absorb(&data[at..s]);
        at = s;
        let got = c.finalize(32);
        let mut want = [0u8; 32];
        blake3::Hasher::new()
            .update(&data[..s])
            .finalize_xof()
            .fill(&mut want);
        assert_eq!(got, want, "after absorbing {s} bytes");
    }
    let trace = c.finish();
    assert_eq!(trace.squeezes.len(), stops.len());
    assert_eq!(trace.rows.len(), trace.links.len());
}

/// The row count matches what the schedule alone predicts.
#[test]
fn row_count_matches_the_derived_inventory() {
    // One squeeze of 16 bytes after 17,008 bytes: 265 absorb + 15 chunk
    // parents, then the finalize.
    let data = vec![7u8; 17_008];
    let mut c = FsChain::new();
    c.absorb(&data);
    c.finalize(16);
    let t = c.finish();

    let complete_chunks = (17_008usize - 1) / 1024;
    let absorb = (17_008usize - 1) / 64;
    let chunk_parents = complete_chunks - complete_chunks.count_ones() as usize;
    let finalize = 1 + complete_chunks.count_ones() as usize;
    assert_eq!(t.rows.len(), absorb + chunk_parents + finalize);
}

/// Two blocks: each compression but the first reads the one before it.
#[test]
fn links_follow_the_chaining_values() {
    let mut c = FsChain::new();
    c.absorb(&[1u8; 128]);
    c.finalize(64);
    let t = c.finish();
    assert_eq!(t.rows.len(), 2);
    assert!(matches!(t.links[0].cv, CvSource::Iv));
    assert!(matches!(t.links[1].cv, CvSource::Row(0)));
    assert_eq!(t.squeezes, vec![vec![1]]);
    assert_eq!(t.block_offsets, vec![Some(0), Some(64)]);
}

/// The chained sponge squeezes what its absorbed bytes determine, and a squeeze
/// leaves the live state as it was.
#[test]
fn chained_sponge_is_a_function_of_its_stream() {
    let mut left = FsChainSponge::new();
    left.absorb(&[5u8; 40]);
    left.absorb(&[6u8; 100]);
    let mut right = FsChainSponge::new();
    let mut whole = vec![5u8; 40];
    whole.extend_from_slice(&[6u8; 100]);
    right.absorb(&whole);
    let first = left.finalize(48);
    assert_eq!(first.len(), 48);
    assert_eq!(first, right.finalize(48));
    assert_eq!(left.finalize(48), first);
    // The requested length is bound too.
    assert_ne!(left.finalize(32), first[..32].to_vec());
    let mut other = FsChainSponge::new();
    other.absorb(&[5u8; 140]);
    assert_ne!(other.finalize(48), first);
    let trace = left.finish();
    assert_eq!(trace.squeezes.len(), 3);
    assert!(matches!(trace.links[0].cv, CvSource::Iv));
}

/// A block is compressed once more input arrives, and its row reads the initial
/// value and the block at its offset.
#[test]
fn the_first_full_block_is_one_row() {
    let mut c = FsChain::new();
    c.absorb(&[7u8; 64]);
    let t = c.finish();
    assert_eq!((t.rows.len(), t.links.len(), t.block_offsets.len()), (0, 0, 0));

    let mut c = FsChain::new();
    c.absorb(&[7u8; 65]);
    let t = c.finish();
    assert_eq!(t.rows, vec![(iv(), [0x0707_0707u32; 16], 0, 64, 1)]);
    assert_eq!(
        t.links,
        vec![Link { cv: CvSource::Iv, right: None, repeats: None }]
    );
    assert_eq!(t.block_offsets, vec![Some(0)]);
    assert!(t.squeezes.is_empty());
}

/// A zero block has its offset like any other, and every further output row
/// repeats the root row.
#[test]
fn zero_blocks_have_offsets_and_further_outputs_repeat_the_root() {
    let mut c = FsChain::new();
    c.absorb(&[0u8; 1200]);
    c.finalize(200);
    let t = c.finish();
    // Sixteen blocks of the first chunk, two of the second, then the pending
    // block, the root and three further outputs.
    assert_eq!(t.rows.len(), 16 + 2 + 1 + 1 + 3);
    assert_eq!(t.squeezes, vec![vec![19, 20, 21, 22]]);
    for i in 0..19 {
        assert_eq!(t.block_offsets[i], Some(64 * i));
        assert_eq!((t.links[i].right, t.links[i].repeats), (None, None));
        assert!(t.rows[i].4 < 8);
    }
    assert_eq!(
        t.links[19],
        Link { cv: CvSource::Row(15), right: Some(18), repeats: None }
    );
    assert_eq!(t.block_offsets[19], None);
    assert_eq!(t.rows[19].4, 12);
    for j in 1..4 {
        assert_eq!(
            t.links[19 + j],
            Link { cv: CvSource::Iv, right: None, repeats: Some(19) }
        );
        assert_eq!(t.block_offsets[19 + j], None);
        let root = t.rows[19];
        assert_eq!(t.rows[19 + j], (root.0, root.1, j as u64, root.3, root.4));
    }
}

/// Absorbing in parts leaves the same trace as absorbing at once, and absorbing
/// nothing changes nothing.
#[test]
fn absorbing_in_parts_leaves_the_same_trace() {
    let data: Vec<u8> = (0..4200u32).map(|i| (i * 31 >> 2) as u8).collect();
    for cut in [0usize, 1, 64, 65, 1024, 1025, 2048, 4199, 4200] {
        let mut parts = FsChain::new();
        parts.absorb(&data[..cut]);
        parts.absorb(&[]);
        parts.absorb(&data[cut..]);
        let mut whole = FsChain::new();
        whole.absorb(&data);
        assert_eq!(parts.finalize(100), whole.finalize(100));
        let (a, b) = (parts.finish(), whole.finish());
        assert_eq!(a.rows, b.rows);
        assert_eq!(a.links, b.links);
        assert_eq!(a.block_offsets, b.block_offsets);
        assert_eq!(a.squeezes, b.squeezes);

        let mut parts = FsChainSponge::new();
        parts.absorb(&data[..cut]);
        parts.absorb(&[]);
        parts.absorb(&data[cut..]);
        let mut whole = FsChainSponge::new();
        whole.absorb(&data);
        assert_eq!(parts.finalize(100), whole.finalize(100));
        let (a, b) = (parts.finish(), whole.finish());
        assert_eq!(a.rows, b.rows);
        assert_eq!(a.links, b.links);
        assert_eq!(a.block_offsets, b.block_offsets);
        assert_eq!(a.squeezes, b.squeezes);
    }
}

/// The sequential chain's rows: each absorbed block with its offset, and output
/// rows with a zero message and none.
#[test]
fn sponge_rows_absorb_blocks_or_carry_output() {
    let mut c = FsChainSponge::new();
    c.absorb(&[0u8; 150]);
    c.finalize(65);
    c.absorb(&[3u8; 42]);
    c.finalize(16);
    let t = c.finish();
    // Two blocks, the pending one and two outputs; then the third block and
    // one output.
    assert_eq!(t.rows.len(), 7);
    assert_eq!(t.squeezes, vec![vec![3, 4], vec![6]]);
    assert_eq!(
        t.block_offsets,
        vec![Some(0), Some(64), Some(128), None, None, Some(128), None]
    );
    let cvs: Vec<CvSource> = t.links.iter().map(|link| link.cv).collect();
    assert_eq!(
        cvs,
        vec![
            CvSource::Iv,
            CvSource::Row(0),
            CvSource::Row(1),
            CvSource::Row(2),
            CvSource::Row(2),
            CvSource::Row(1),
            CvSource::Row(5),
        ]
    );
    for (i, row) in t.rows.iter().enumerate() {
        assert_eq!((t.links[i].right, t.links[i].repeats), (None, None));
        let flags = if t.block_offsets[i].is_some() { CHAIN_ABSORB } else { CHAIN_SQUEEZE };
        assert_eq!(row.4, flags);
    }
    assert_eq!((t.rows[0].2, t.rows[0].3), (0, 64));
    assert_eq!((t.rows[2].2, t.rows[2].3), (2, 22));
    assert_eq!((t.rows[3].1, t.rows[3].2, t.rows[3].3), ([0; 16], 0, 65));
    assert_eq!((t.rows[4].1, t.rows[4].2, t.rows[4].3), ([0; 16], 1, 65));
    assert_eq!((t.rows[5].2, t.rows[5].3), (2, 64));
    assert_eq!((t.rows[6].1, t.rows[6].2, t.rows[6].3), ([0; 16], 0, 16));
}

/// Whatever squeezes stand between the absorbs, a squeeze gives the output of all
/// the absorbed bytes, and the rows are those of the bytes and of the squeezes.
#[test]
fn squeezes_do_not_interfere() {
    let data: Vec<u8> = (0..3000u32).map(|i| (i * 7 >> 1) as u8).collect();
    let stops = [0usize, 30, 64, 1024, 1100, 3000];
    let mut tree = FsChain::new();
    let mut sponge = FsChainSponge::new();
    let (mut at, mut tree_rows, mut sponge_rows) = (0, 0, 0);
    for &stop in &stops {
        tree.absorb(&data[at..stop]);
        sponge.absorb(&data[at..stop]);
        at = stop;
        let mut quiet_tree = FsChain::new();
        quiet_tree.absorb(&data[..stop]);
        let mut quiet_sponge = FsChainSponge::new();
        quiet_sponge.absorb(&data[..stop]);
        for n in [16usize, 65] {
            assert_eq!(tree.finalize(n), quiet_tree.finalize(n));
            assert_eq!(sponge.finalize(n), quiet_sponge.finalize(n));
            let chunks = if stop == 0 { 0 } else { (stop - 1) / 1024 };
            tree_rows += 1 + chunks.count_ones() as usize + (n - 1) / 64;
            sponge_rows += usize::from(stop % 64 != 0) + n.div_ceil(64);
        }
    }
    let tree = tree.finish();
    let sponge = sponge.finish();
    let (blocks, chunks) = (2999usize / 64, 2999usize / 1024);
    let absorbed = blocks + chunks - chunks.count_ones() as usize;
    assert_eq!(tree.rows.len(), absorbed + tree_rows);
    assert_eq!(sponge.rows.len(), 3000 / 64 + sponge_rows);
    // The sponge's rows outside its squeezes are the blocks in order.
    let mut block = 0;
    for (i, row) in sponge.rows.iter().enumerate() {
        if sponge.block_offsets[i] == Some(64 * block) && row.3 == 64 {
            assert_eq!(row.2, block as u64);
            block += 1;
        }
    }
    assert_eq!(block, 3000 / 64);
    // A squeezed row's block length is the requested length.
    for (q, ids) in sponge.squeezes.iter().enumerate() {
        let requested = [16u32, 65][q % 2];
        assert!(ids.iter().all(|&id| sponge.rows[id].3 == requested));
    }
}
