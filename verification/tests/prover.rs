//! The order of a proof, a registry's witness and the claims it opens.
use flock_prover::field::F128;
use flock_prover::prover::schedule::{
    check_matrix_inputs, check_merged_inputs, check_table_inputs, check_union_inputs, elides_zeros,
    gives_back, matrix_steps, merged_compaction, merged_steps, table_steps, union_compaction,
    union_steps, Binding, Compaction, Step, TableRefusal, TableShape, Transport, UnionRefusal,
    UnionRequest, UnionShape, WitnessBufMode, WitnessLayout,
};
use flock_prover::prover::union::{
    build_union_witness, dense_words, opening_input, witness_mode, BooleanClaims, DirectClaim,
    ElementClaims, SlotBlock, SourceKind, UnionOpen, UnionProveOutput,
};
use flock_prover::prover::{open_quirky, quirky_x_outer_full, LowBinding, QuirkyPoint, ZClaim};
use flock_prover::vectors::Rng;

fn table() -> TableShape {
    TableShape {
        m: 12,
        k_log: 8,
        layout: WitnessLayout::RowMajor,
        third_is_identity: true,
    }
}

#[test]
fn a_tables_proof_commits_before_it_draws() {
    assert_eq!(
        matrix_steps(&table()),
        vec![
            Step::Commit { lane_major: false },
            Step::Bind {
                binding: Binding::Table
            },
            Step::Apply { third: false },
            Step::Zerocheck { variables: 12 },
            Step::Lincheck,
            Step::PrecomputeRows,
            Step::Open {
                transport: Transport::Direct
            },
        ]
    );
    // Too few inner variables: the rows are left to the opening.
    let mut small = table();
    small.k_log = 6;
    assert!(!matrix_steps(&small).contains(&Step::PrecomputeRows));
    assert_eq!(table_steps(&small, Transport::Jagged).len(), 5);
}

#[test]
fn every_refused_table_has_its_reason() {
    assert_eq!(check_matrix_inputs(&table(), 32, 12), None);
    let mut batch = table();
    batch.layout = WitnessLayout::BatchMajor;
    assert_eq!(
        check_matrix_inputs(&batch, 32, 12),
        Some(TableRefusal::NotRowMajor)
    );
    assert_eq!(
        check_matrix_inputs(&table(), 31, 12),
        Some(TableRefusal::WitnessLength)
    );
    assert_eq!(
        check_matrix_inputs(&table(), 64, 12),
        Some(TableRefusal::WitnessLength)
    );
    assert_eq!(
        check_matrix_inputs(&table(), 32, 13),
        Some(TableRefusal::CommitmentSize)
    );
    assert_eq!(check_table_inputs(&table(), Transport::Direct), None);
    assert_eq!(check_table_inputs(&batch, Transport::Jagged), None);
    assert_eq!(
        check_table_inputs(&table(), Transport::Jagged),
        Some(TableRefusal::NotBatchMajor)
    );
}

fn registry() -> (UnionShape, UnionRequest) {
    (
        UnionShape {
            m_total: 30,
            dense_m: 28,
            m_bool: 29,
            n_log: 15,
            num_boolean: 2,
            num_element: 1,
            compaction_is_identity: false,
        },
        UnionRequest {
            params_m: 28,
            lane_major: true,
            boolean_inputs: 2,
            element_inputs: 1,
            binding: Binding::Circuit,
            transport: Transport::Jagged,
        },
    )
}

#[test]
fn a_registrys_proof_runs_its_classes_in_order() {
    let (union, request) = registry();
    assert_eq!(check_union_inputs(&union, &request), None);
    assert_eq!(
        union_steps(&union, &request),
        vec![
            Step::BuildWitness {
                padding_unread: false
            },
            Step::Compact,
            Step::Commit { lane_major: true },
            Step::Bind {
                binding: Binding::Circuit
            },
            Step::SaveElementRows,
            Step::Zerocheck { variables: 29 },
            Step::Lincheck,
            Step::PrecomputeRows,
            Step::ElementReduction,
            Step::Wiring,
            Step::Open {
                transport: Transport::Jagged
            },
        ]
    );
    // Boolean tables alone, bound as a registry.
    let plain = UnionShape {
        num_element: 0,
        compaction_is_identity: true,
        ..union
    };
    let mixed = UnionRequest {
        binding: Binding::Mixed,
        ..request
    };
    let steps = union_steps(&plain, &mixed);
    assert_eq!(steps.len(), 7);
    assert!(!steps.contains(&Step::Wiring));
    assert!(!steps.contains(&Step::ElementReduction));
    // The transport is the last choice.
    let merged = UnionRequest {
        transport: Transport::Merged,
        ..mixed
    };
    assert_eq!(union_steps(&plain, &merged)[..6], steps[..6]);
}

#[test]
fn every_refused_registry_has_its_reason() {
    let (union, request) = registry();
    let refused = |union: UnionShape, request: UnionRequest| check_union_inputs(&union, &request);
    assert_eq!(
        refused(
            union,
            UnionRequest {
                binding: Binding::SingleTypeHarness,
                ..request
            }
        ),
        Some(UnionRefusal::NotSingleType)
    );
    assert_eq!(
        refused(
            union,
            UnionRequest {
                params_m: 30,
                ..request
            }
        ),
        Some(UnionRefusal::CommitmentSize)
    );
    assert_eq!(
        refused(
            union,
            UnionRequest {
                boolean_inputs: 3,
                ..request
            }
        ),
        Some(UnionRefusal::BooleanInputs)
    );
    assert_eq!(
        refused(
            union,
            UnionRequest {
                element_inputs: 0,
                ..request
            }
        ),
        Some(UnionRefusal::ElementInputs)
    );
    // The transport decides nothing: where the dense words are the padded ones
    // a merged opening is handed a copy of those.
    assert_eq!(
        refused(
            UnionShape {
                compaction_is_identity: true,
                ..union
            },
            UnionRequest {
                transport: Transport::Merged,
                ..request
            }
        ),
        None
    );
    assert_eq!(
        check_merged_inputs(&union, 28, 2),
        Some(UnionRefusal::ElementTables)
    );
    let plain = UnionShape {
        num_element: 0,
        ..union
    };
    assert_eq!(check_merged_inputs(&plain, 28, 2), None);
    assert_eq!(
        check_merged_inputs(&plain, 30, 2),
        Some(UnionRefusal::CommitmentSize)
    );
    assert_eq!(
        check_merged_inputs(&plain, 28, 1),
        Some(UnionRefusal::BooleanInputs)
    );
}

#[test]
fn dense_words_are_copied_or_gathered() {
    let (union, _) = registry();
    let plain = UnionShape {
        compaction_is_identity: true,
        ..union
    };
    assert_eq!(union_compaction(&union), Compaction::Checked);
    assert_eq!(union_compaction(&plain), Compaction::Copy);
    let padded = vec![F128::one(), F128::zero(), F128 { lo: 3, hi: 1 }];
    let gathered = vec![F128::one()];
    assert_eq!(dense_words(union_compaction(&plain), &padded, None), padded);
    assert_eq!(
        dense_words(union_compaction(&union), &padded, Some(gathered.clone())),
        gathered
    );
}

#[test]
fn prebuilt_sources_take_pooled_zeros() {
    let (prebuilt, in_place) = (SourceKind::Prebuilt, SourceKind::InPlace);
    let element = SourceKind::Element;
    for taken in [WitnessBufMode::FreshZeroed, WitnessBufMode::PooledDirty] {
        assert_eq!(
            witness_mode(&[prebuilt, prebuilt], 2, taken),
            Some(WitnessBufMode::PooledZeroed)
        );
        assert_eq!(witness_mode(&[prebuilt, in_place], 2, taken), Some(taken));
        assert_eq!(witness_mode(&[prebuilt, element], 2, taken), Some(taken));
        assert_eq!(witness_mode(&[prebuilt], 2, taken), None);
    }
    assert_eq!(
        witness_mode(&[], 0, WitnessBufMode::PooledDirty),
        Some(WitnessBufMode::PooledZeroed)
    );
}

#[test]
fn merged_and_jagged_proofs_part_at_the_opening() {
    let (union, request) = registry();
    let jagged = UnionRequest {
        binding: Binding::Mixed,
        ..request
    };
    for compaction_is_identity in [false, true] {
        let plain = UnionShape {
            m_bool: 30,
            num_element: 0,
            compaction_is_identity,
            ..union
        };
        let merged = merged_steps(&plain, true);
        let steps = union_steps(&plain, &jagged);
        let gathered = if compaction_is_identity { 1 } else { 2 };
        assert_eq!(merged[2..7], steps[gathered..gathered + 5]);
        assert_eq!(
            (merged.len(), merged[7], steps.len(), steps[gathered + 5]),
            (
                8,
                Step::Open {
                    transport: Transport::Merged
                },
                gathered + 6,
                Step::Open {
                    transport: Transport::Jagged
                }
            )
        );
    }
}

#[test]
fn a_merged_proof_leaves_its_padding_unread() {
    let (union, _) = registry();
    let steps = merged_steps(&union, false);
    assert_eq!(
        steps[0],
        Step::BuildWitness {
            padding_unread: true
        }
    );
    assert_eq!(steps.len(), 8);
    let shallow = UnionShape {
        n_log: 24,
        ..union
    };
    let steps = merged_steps(&shallow, false);
    assert_eq!(
        steps[0],
        Step::BuildWitness {
            padding_unread: false
        }
    );
    assert!(!steps.contains(&Step::PrecomputeRows));
    assert_eq!(
        merged_compaction(&union, WitnessBufMode::PooledDirty),
        Compaction::Unchecked
    );
    assert_eq!(
        merged_compaction(&union, WitnessBufMode::PooledZeroed),
        Compaction::Checked
    );
    let whole = UnionShape {
        compaction_is_identity: true,
        ..union
    };
    assert_eq!(
        merged_compaction(&whole, WitnessBufMode::PooledDirty),
        Compaction::Copy
    );
    assert!(!gives_back(WitnessBufMode::FreshZeroed));
    assert!(gives_back(WitnessBufMode::PooledDirty));
    assert!(!elides_zeros(WitnessBufMode::PooledZeroed));
    assert!(elides_zeros(WitnessBufMode::FreshZeroed));
}

fn sample(rng: &mut Rng, n: usize) -> Vec<F128> {
    (0..n).map(|_| rng.next_f128()).collect()
}

#[test]
fn tables_stand_in_their_blocks() {
    let mut rng = Rng::new(163);
    let mut block = |start: usize, n: usize, stripe: Vec<u8>| SlotBlock {
        start,
        z: sample(&mut rng, n),
        a: sample(&mut rng, n),
        b: sample(&mut rng, n),
        stripe,
    };
    let blocks = vec![block(0, 4, vec![1, 2]), block(6, 2, vec![])];
    let witness = build_union_witness(&blocks, 10);
    assert_eq!(witness.z[..4], blocks[0].z[..]);
    assert_eq!(witness.z[4..6], [F128::zero(); 2]);
    assert_eq!(witness.a[6..8], blocks[1].a[..]);
    assert_eq!(witness.b[8..], [F128::zero(); 2]);
    assert_eq!(witness.stripes, vec![vec![1, 2], vec![]]);
}

fn claim(rng: &mut Rng) -> ZClaim {
    ZClaim {
        point: QuirkyPoint {
            z_skip: rng.next_f128(),
            x_inner_rest: sample(rng, 2),
            x_outer: sample(rng, 3),
        },
        value: rng.next_f128(),
    }
}

#[test]
fn one_opening_takes_both_classes_claims() {
    let mut rng = Rng::new(167);
    let boolean = BooleanClaims {
        ab: claim(&mut rng),
        c: claim(&mut rng),
        rows_ab: None,
        rows_c: sample(&mut rng, 3),
    };
    let element = ElementClaims {
        c_point: sample(&mut rng, 2),
        c_value: rng.next_f128(),
        lc_point: sample(&mut rng, 2),
        lc_value: rng.next_f128(),
    };
    let gather = vec![DirectClaim {
        point: sample(&mut rng, 2),
        value: rng.next_f128(),
    }];
    let input = opening_input(Some(boolean.clone()), &Some(element.clone()), &gather);
    assert_eq!(input.points[0], quirky_x_outer_full(&boolean.ab.point));
    assert_eq!(input.points[1], quirky_x_outer_full(&boolean.c.point));
    assert_eq!(input.rows, vec![None, Some(boolean.rows_c.clone())]);
    let values: Vec<F128> = input.direct.iter().map(|d| d.value).collect();
    assert_eq!(
        values,
        vec![element.c_value, element.lc_value, gather[0].value]
    );
    assert_eq!(input.direct[1].point, element.lc_point);
    let empty = opening_input(None, &None, &[]);
    assert!(empty.points.is_empty() && empty.rows.is_empty() && empty.direct.is_empty());
    let opened = open_quirky(&boolean.ab);
    assert_eq!(opened.x_full, input.points[0]);
    match opened.binding {
        LowBinding::Quirky { z_skip } => assert_eq!(z_skip, boolean.ab.point.z_skip),
        LowBinding::Multilinear { .. } => panic!("quirky"),
    }
}

#[test]
fn only_a_boolean_proof_is_repackaged() {
    let output = |element: Option<u8>, wiring: Option<u8>, boolean: Option<u8>| {
        let opening: UnionOpen<u32, u64> = UnionOpen::Jagged(7);
        UnionProveOutput {
            boolean,
            element,
            wiring,
            opening,
        }
    };
    assert_eq!(output(None, None, Some(3)).into_boolean_only(), Some((3, 7)));
    assert_eq!(output(Some(1), None, Some(3)).into_boolean_only(), None);
    assert_eq!(output(None, Some(1), Some(3)).into_boolean_only(), None);
    assert_eq!(output(None, None, None).into_boolean_only(), None);
    let merged: UnionOpen<u32, u64> = UnionOpen::Merged(9);
    assert_eq!(merged.merged(), 9);
}
