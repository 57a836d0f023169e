//! The order in which a proof's messages are made, and the inputs on which no
//! proof is begun.
//!
//! A proof commits to its witness, binds the statement to the transcript, runs
//! the reductions and opens what they left. What is run depends on the shape of
//! the statement alone, and is decided here before any of it is done.
use vstd::prelude::*;

verus! {

/// How many variables one packed word holds.
pub const LOG_PACKING: usize = 7;

/// How a table's rows lie in its witness.
#[derive(Clone, Copy, Debug, PartialEq, Eq, Structural)]
pub enum WitnessLayout {
    RowMajor,
    BatchMajor,
}

/// What carries the claims of an opening.
#[derive(Clone, Copy, Debug, PartialEq, Eq, Structural)]
pub enum Transport {
    /// Over the committed words themselves.
    Direct,
    /// Over the padded words, then down to the dense ones.
    Jagged,
    /// Over the dense words.
    Merged,
}

/// What is bound to the transcript as the statement.
#[derive(Clone, Copy, Debug, PartialEq, Eq, Structural)]
pub enum Binding {
    /// A single table.
    Table,
    /// A registry of tables with their counts.
    Mixed,
    /// A registry, a circuit over its rows and the circuit's public words.
    Circuit,
    /// A registry of one table, bound as that table.
    SingleTypeHarness,
}

/// How the committed words are had from the padded ones.
#[derive(Clone, Copy, Debug, PartialEq, Eq, Structural)]
pub enum Compaction {
    /// They are the padded words.
    Copy,
    /// The dropped words are not looked at.
    Unchecked,
    /// The dropped words are zero.
    Checked,
}

/// What the witness's buffers held before they were filled.
#[derive(Clone, Copy, Debug, PartialEq, Eq, Structural)]
pub enum WitnessBufMode {
    FreshZeroed,
    PooledZeroed,
    PooledDirty,
}

/// One piece of work of a proof.
#[derive(Clone, Copy, Debug, PartialEq, Eq, Structural)]
pub enum Step {
    /// Fill the padded words; the flag says that the padding is never read.
    BuildWitness { padding_unread: bool },
    /// Gather the dense words from the padded ones.
    Compact,
    /// Commit, by whole lanes or by the full power of two.
    Commit { lane_major: bool },
    /// Bind the statement and the commitment.
    Bind { binding: Binding },
    /// Multiply the witness by the first two matrices, and by the third where
    /// it is not the identity.
    Apply { third: bool },
    /// Copy the element region's products before they are consumed.
    SaveElementRows,
    /// The zero check over so many variables.
    Zerocheck { variables: usize },
    /// The linear check.
    Lincheck,
    /// Derive the first claim's folded rows from the linear check.
    PrecomputeRows,
    /// The element class's own reduction.
    ElementReduction,
    /// The argument that a circuit's cells are wired as it says.
    Wiring,
    /// Open every claim.
    Open { transport: Transport },
}

impl Step {
    /// Where in a proof the step stands.
    pub open spec fn rank(self) -> int {
        match self {
            Step::BuildWitness { .. } => 0,
            Step::Compact => 1,
            Step::Commit { .. } => 2,
            Step::Bind { .. } => 3,
            Step::Apply { .. } => 4,
            Step::SaveElementRows => 5,
            Step::Zerocheck { .. } => 6,
            Step::Lincheck => 7,
            Step::PrecomputeRows => 8,
            Step::ElementReduction => 9,
            Step::Wiring => 10,
            Step::Open { .. } => 11,
        }
    }
}

/// No step, or the one.
pub open spec fn when(condition: bool, step: Step) -> Seq<Step> {
    if condition {
        seq![step]
    } else {
        Seq::empty()
    }
}

/// The two checks over `variables` variables, the inner ones `inner` of them.
pub open spec fn checks(variables: usize, inner: int) -> Seq<Step> {
    seq![Step::Zerocheck { variables }, Step::Lincheck] + when(
        inner >= LOG_PACKING,
        Step::PrecomputeRows,
    )
}

/// A table's shape, as far as its proof depends on it.
#[derive(Clone, Copy, Debug)]
pub struct TableShape {
    /// How many variables the witness has.
    pub m: usize,
    /// How many of them lie within a block.
    pub k_log: usize,
    pub layout: WitnessLayout,
    /// Whether the third matrix is the identity.
    pub third_is_identity: bool,
}

/// Why no proof of a table is begun.
#[derive(Clone, Copy, Debug, PartialEq, Eq, Structural)]
pub enum TableRefusal {
    /// The matrices are applied to rows that lie together.
    NotRowMajor,
    /// The jagged grid's columns are the rows of a batch.
    NotBatchMajor,
    /// The witness has not one word for every 128 cells.
    WitnessLength,
    /// The commitment is to another number of variables.
    CommitmentSize,
}

/// `words` is `2^(m - 7)`.
pub open spec fn words_fit(m: usize, words: usize) -> bool {
    m >= LOG_PACKING && words == vstd::arithmetic::power2::pow2((m - LOG_PACKING) as nat)
}

/// Why the matrices of a table prove nothing of `words` words committed over
/// `params_m` variables, or nothing.
pub open spec fn matrix_refusal(table: TableShape, words: usize, params_m: usize) -> Option<
    TableRefusal,
> {
    if table.layout != WitnessLayout::RowMajor {
        Some(TableRefusal::NotRowMajor)
    } else if !words_fit(table.m, words) {
        Some(TableRefusal::WitnessLength)
    } else if params_m != table.m {
        Some(TableRefusal::CommitmentSize)
    } else {
        None
    }
}

/// Whether a proof from a table's matrices can be begun.
pub fn check_matrix_inputs(table: &TableShape, words: usize, params_m: usize) -> (refusal: Option<
    TableRefusal,
>)
    ensures
        refusal == matrix_refusal(*table, words, params_m),
        refusal is None <==> table.layout == WitnessLayout::RowMajor && table.m >= 7 && words * 128
            == vstd::arithmetic::power2::pow2(table.m as nat) && params_m == table.m,
        refusal == Some(TableRefusal::NotRowMajor) <==> table.layout == WitnessLayout::BatchMajor,
        refusal == Some(TableRefusal::CommitmentSize) <==> table.layout == WitnessLayout::RowMajor
            && table.m >= 7 && words * 128 == vstd::arithmetic::power2::pow2(table.m as nat)
            && params_m != table.m,
{
    proof {
        tables_are_refused_for_cause(*table, words, params_m, Transport::Direct);
    }
    if table.layout != WitnessLayout::RowMajor {
        Some(TableRefusal::NotRowMajor)
    } else if !is_word_count(table.m, words) {
        Some(TableRefusal::WitnessLength)
    } else if params_m != table.m {
        Some(TableRefusal::CommitmentSize)
    } else {
        None
    }
}

/// Whether `words` is `2^(m - 7)`.
pub fn is_word_count(m: usize, words: usize) -> (fits: bool)
    ensures
        fits == words_fit(m, words),
{
    if m < LOG_PACKING {
        return false;
    }
    let mut left: usize = m - LOG_PACKING;
    let mut part: usize = words;
    while left > 0
        invariant
            m >= LOG_PACKING,
            left <= m - LOG_PACKING,
            words_fit(m, words) <==> part == vstd::arithmetic::power2::pow2(left as nat),
        decreases left,
    {
        proof {
            vstd::arithmetic::power2::lemma_pow2_unfold(left as nat);
            vstd::arithmetic::power2::lemma_pow2_pos((left - 1) as nat);
        }
        if part % 2 != 0 {
            return false;
        }
        part = part / 2;
        left = left - 1;
    }
    proof {
        vstd::arithmetic::power2::lemma2_to64();
    }
    part == 1
}

/// The steps of a proof from a table's matrices.
pub open spec fn matrix_steps_of(table: TableShape) -> Seq<Step> {
    seq![
        Step::Commit { lane_major: false },
        Step::Bind { binding: Binding::Table },
        Step::Apply { third: !table.third_is_identity },
    ] + checks(table.m, table.k_log as int) + seq![Step::Open { transport: Transport::Direct }]
}

/// The steps of a proof from a table's matrices.
pub fn matrix_steps(table: &TableShape) -> (steps: Vec<Step>)
    ensures
        steps@ == matrix_steps_of(*table),
        steps@.contains(Step::Apply { third: true }) <==> !table.third_is_identity,
        steps@.contains(Step::Apply { third: false }) <==> table.third_is_identity,
        steps@.contains(Step::PrecomputeRows) <==> table.k_log >= 7,
        steps@.last() == (Step::Open { transport: Transport::Direct }),
{
    let mut steps: Vec<Step> = Vec::new();
    steps.push(Step::Commit { lane_major: false });
    steps.push(Step::Bind { binding: Binding::Table });
    steps.push(Step::Apply { third: !table.third_is_identity });
    push_checks(&mut steps, table.m, table.k_log);
    steps.push(Step::Open { transport: Transport::Direct });
    assert(steps@ =~= matrix_steps_of(*table));
    proof {
        tables_run_every_check(*table, Transport::Direct);
    }
    steps
}

/// Append the two checks.
fn push_checks(steps: &mut Vec<Step>, variables: usize, inner: usize)
    ensures
        final(steps)@ == old(steps)@ + checks(variables, inner as int),
{
    let ghost before = steps@;
    steps.push(Step::Zerocheck { variables });
    steps.push(Step::Lincheck);
    if inner >= LOG_PACKING {
        steps.push(Step::PrecomputeRows);
    }
    assert(steps@ =~= before + checks(variables, inner as int));
}

/// Why a table's given products are not opened over a transport, or nothing.
pub open spec fn table_refusal(table: TableShape, transport: Transport) -> Option<TableRefusal> {
    if transport != Transport::Direct && table.layout != WitnessLayout::BatchMajor {
        Some(TableRefusal::NotBatchMajor)
    } else {
        None
    }
}

/// Whether a proof from a table's given products can be begun.
pub fn check_table_inputs(table: &TableShape, transport: Transport) -> (refusal: Option<
    TableRefusal,
>)
    ensures
        refusal == table_refusal(*table, transport),
        refusal is None <==> transport == Transport::Direct || table.layout
            == WitnessLayout::BatchMajor,
        refusal is Some ==> refusal == Some(TableRefusal::NotBatchMajor),
{
    if transport != Transport::Direct && table.layout != WitnessLayout::BatchMajor {
        Some(TableRefusal::NotBatchMajor)
    } else {
        None
    }
}

/// The steps that every proof from a table's given products begins with.
pub open spec fn core_steps_of(table: TableShape) -> Seq<Step> {
    seq![Step::Commit { lane_major: false }, Step::Bind { binding: Binding::Table }] + checks(
        table.m,
        table.k_log as int,
    )
}

/// The steps that every proof from a table's given products begins with.
pub fn core_steps(table: &TableShape) -> (steps: Vec<Step>)
    ensures
        steps@ == core_steps_of(*table),
{
    let mut steps: Vec<Step> = Vec::new();
    steps.push(Step::Commit { lane_major: false });
    steps.push(Step::Bind { binding: Binding::Table });
    push_checks(&mut steps, table.m, table.k_log);
    assert(steps@ =~= core_steps_of(*table));
    steps
}

/// The steps of a proof from a table's given products.
pub fn table_steps(table: &TableShape, transport: Transport) -> (steps: Vec<Step>)
    ensures
        steps@ == core_steps_of(*table).push(Step::Open { transport }),
        steps@.contains(Step::PrecomputeRows) <==> table.k_log >= 7,
        steps@.last() == (Step::Open { transport }),
{
    let mut steps = core_steps(table);
    steps.push(Step::Open { transport });
    proof {
        tables_run_every_check(*table, transport);
    }
    steps
}

/// The shape of a registry of tables, as far as a proof depends on it.
#[derive(Clone, Copy, Debug)]
pub struct UnionShape {
    /// How many variables the padded words and the dense ones have.
    pub m_total: usize,
    pub dense_m: usize,
    /// How many of the padded ones the boolean tables have.
    pub m_bool: usize,
    /// How many variables number a table's rows.
    pub n_log: usize,
    /// How many boolean tables there are, and how many element tables.
    pub num_boolean: usize,
    pub num_element: usize,
    /// Whether the dense words are the padded ones.
    pub compaction_is_identity: bool,
}

/// What is asked of a proof of a registry.
#[derive(Clone, Copy, Debug)]
pub struct UnionRequest {
    /// How many variables the commitment has, and whether it is by lanes.
    pub params_m: usize,
    pub lane_major: bool,
    /// How many inputs there are for each class.
    pub boolean_inputs: usize,
    pub element_inputs: usize,
    pub binding: Binding,
    pub transport: Transport,
}

/// Why no proof of a registry is begun.
#[derive(Clone, Copy, Debug, PartialEq, Eq, Structural)]
pub enum UnionRefusal {
    /// The statement is bound as one table, and there is not just one.
    NotSingleType,
    /// The commitment is not to the dense words.
    CommitmentSize,
    /// There is not one input for every boolean table.
    BooleanInputs,
    /// There is not one input for every element table.
    ElementInputs,
    /// The proof asked for has no place for element tables.
    ElementTables,
}

/// Why no proof of a registry is begun, or nothing.
pub open spec fn union_refusal(union: UnionShape, request: UnionRequest) -> Option<UnionRefusal> {
    if request.binding == Binding::SingleTypeHarness && union.num_boolean + union.num_element
        != 1 {
        Some(UnionRefusal::NotSingleType)
    } else if request.params_m != union.dense_m {
        Some(UnionRefusal::CommitmentSize)
    } else if request.boolean_inputs != union.num_boolean {
        Some(UnionRefusal::BooleanInputs)
    } else if request.element_inputs != union.num_element {
        Some(UnionRefusal::ElementInputs)
    } else {
        None
    }
}

/// Whether a proof of a registry can be begun.
pub fn check_union_inputs(union: &UnionShape, request: &UnionRequest) -> (refusal: Option<
    UnionRefusal,
>)
    ensures
        refusal == union_refusal(*union, *request),
        refusal is None <==> (request.binding == Binding::SingleTypeHarness ==> union.num_boolean
            + union.num_element == 1) && request.params_m == union.dense_m
            && request.boolean_inputs == union.num_boolean && request.element_inputs
            == union.num_element,
        refusal == Some(UnionRefusal::NotSingleType) <==> request.binding
            == Binding::SingleTypeHarness && union.num_boolean + union.num_element != 1,
{
    let single = (union.num_boolean == 1 && union.num_element == 0) || (union.num_boolean == 0
        && union.num_element == 1);
    if request.binding == Binding::SingleTypeHarness && !single {
        Some(UnionRefusal::NotSingleType)
    } else if request.params_m != union.dense_m {
        Some(UnionRefusal::CommitmentSize)
    } else if request.boolean_inputs != union.num_boolean {
        Some(UnionRefusal::BooleanInputs)
    } else if request.element_inputs != union.num_element {
        Some(UnionRefusal::ElementInputs)
    } else {
        None
    }
}

/// The steps of a proof of a registry.
pub open spec fn union_steps_of(union: UnionShape, request: UnionRequest) -> Seq<Step> {
    seq![Step::BuildWitness { padding_unread: false }] + when(
        !union.compaction_is_identity,
        Step::Compact,
    ) + seq![Step::Commit { lane_major: request.lane_major }] + seq![
        Step::Bind { binding: request.binding },
    ] + when(union.num_element > 0, Step::SaveElementRows) + (if union.num_boolean > 0 {
        checks(union.m_bool, union.m_bool - union.n_log)
    } else {
        Seq::empty()
    }) + when(union.num_element > 0, Step::ElementReduction) + when(
        request.binding == Binding::Circuit,
        Step::Wiring,
    ) + seq![Step::Open { transport: request.transport }]
}

/// The steps of a proof of a registry.
pub fn union_steps(union: &UnionShape, request: &UnionRequest) -> (steps: Vec<Step>)
    requires
        union.num_boolean > 0 ==> union.n_log <= union.m_bool,
    ensures
        steps@ == union_steps_of(*union, *request),
        steps@.contains(Step::Compact) <==> !union.compaction_is_identity,
        steps@.contains(Step::SaveElementRows) <==> union.num_element > 0,
        steps@.contains(Step::Zerocheck { variables: union.m_bool }) <==> union.num_boolean > 0,
        steps@.contains(Step::Lincheck) <==> union.num_boolean > 0,
        steps@.contains(Step::PrecomputeRows) <==> union.num_boolean > 0 && union.m_bool
            - union.n_log >= 7,
        steps@.contains(Step::ElementReduction) <==> union.num_element > 0,
        steps@.contains(Step::Wiring) <==> request.binding == Binding::Circuit,
        steps@.contains(Step::Bind { binding: request.binding }),
        steps@.contains(Step::Commit { lane_major: request.lane_major }),
        steps@[0] == (Step::BuildWitness { padding_unread: false }),
        steps@.last() == (Step::Open { transport: request.transport }),
{
    let mut steps: Vec<Step> = Vec::new();
    steps.push(Step::BuildWitness { padding_unread: false });
    assert(steps@ =~= seq![Step::BuildWitness { padding_unread: false }]);
    push_when(&mut steps, !union.compaction_is_identity, Step::Compact);
    push_when(&mut steps, true, Step::Commit { lane_major: request.lane_major });
    push_when(&mut steps, true, Step::Bind { binding: request.binding });
    push_when(&mut steps, union.num_element > 0, Step::SaveElementRows);
    let ghost before = steps@;
    if union.num_boolean > 0 {
        push_checks(&mut steps, union.m_bool, union.m_bool - union.n_log);
    } else {
        assert(before =~= before + Seq::empty());
    }
    push_when(&mut steps, union.num_element > 0, Step::ElementReduction);
    push_when(&mut steps, request.binding == Binding::Circuit, Step::Wiring);
    push_when(&mut steps, true, Step::Open { transport: request.transport });
    proof {
        registries_run_what_they_hold(*union, *request);
    }
    steps
}

/// Append a step where a condition holds.
fn push_when(steps: &mut Vec<Step>, condition: bool, step: Step)
    ensures
        final(steps)@ == old(steps)@ + when(condition, step),
{
    let ghost before = steps@;
    if condition {
        steps.push(step);
    }
    assert(steps@ =~= before + when(condition, step));
}

/// Why no merged proof of a boolean registry is begun, or nothing.
pub open spec fn merged_refusal(union: UnionShape, params_m: usize, inputs: usize) -> Option<
    UnionRefusal,
> {
    if union.num_element > 0 {
        Some(UnionRefusal::ElementTables)
    } else if params_m != union.dense_m {
        Some(UnionRefusal::CommitmentSize)
    } else if inputs != union.num_boolean {
        Some(UnionRefusal::BooleanInputs)
    } else {
        None
    }
}

/// Whether a merged proof of a boolean registry can be begun.
pub fn check_merged_inputs(union: &UnionShape, params_m: usize, inputs: usize) -> (refusal: Option<
    UnionRefusal,
>)
    ensures
        refusal == merged_refusal(*union, params_m, inputs),
        refusal is None <==> union.num_element == 0 && params_m == union.dense_m && inputs
            == union.num_boolean,
        refusal == Some(UnionRefusal::ElementTables) <==> union.num_element > 0,
{
    if union.num_element > 0 {
        Some(UnionRefusal::ElementTables)
    } else if params_m != union.dense_m {
        Some(UnionRefusal::CommitmentSize)
    } else if inputs != union.num_boolean {
        Some(UnionRefusal::BooleanInputs)
    } else {
        None
    }
}

/// The steps of a merged proof of a boolean registry.
pub open spec fn merged_steps_of(union: UnionShape, lane_major: bool) -> Seq<Step> {
    seq![
        Step::BuildWitness { padding_unread: union.m_total - union.n_log >= LOG_PACKING },
        Step::Compact,
        Step::Commit { lane_major },
        Step::Bind { binding: Binding::Mixed },
    ] + checks(union.m_total, union.m_total - union.n_log) + seq![
        Step::Open { transport: Transport::Merged },
    ]
}

/// The steps of a merged proof of a boolean registry. The padding is left
/// unread where the first claim's rows come from the linear check.
pub fn merged_steps(union: &UnionShape, lane_major: bool) -> (steps: Vec<Step>)
    requires
        union.n_log <= union.m_total,
    ensures
        steps@ == merged_steps_of(*union, lane_major),
        steps@.contains(Step::BuildWitness { padding_unread: true }) <==> steps@.contains(
            Step::PrecomputeRows,
        ),
        steps@.contains(Step::PrecomputeRows) <==> union.m_total - union.n_log >= 7,
        steps@.contains(Step::Commit { lane_major }),
        steps@.last() == (Step::Open { transport: Transport::Merged }),
{
    let inner: usize = union.m_total - union.n_log;
    let mut steps: Vec<Step> = Vec::new();
    steps.push(Step::BuildWitness { padding_unread: inner >= LOG_PACKING });
    steps.push(Step::Compact);
    steps.push(Step::Commit { lane_major });
    steps.push(Step::Bind { binding: Binding::Mixed });
    push_checks(&mut steps, union.m_total, inner);
    steps.push(Step::Open { transport: Transport::Merged });
    assert(steps@ =~= merged_steps_of(*union, lane_major));
    proof {
        merged_proofs_run_every_check(*union, lane_major);
    }
    steps
}

/// How the dense words of a registry's proof are had, over either transport:
/// where the gathering changes nothing they are the padded words.
pub open spec fn union_compaction_of(union: UnionShape) -> Compaction {
    if union.compaction_is_identity {
        Compaction::Copy
    } else {
        Compaction::Checked
    }
}

/// How the dense words of a registry's proof are had.
pub fn union_compaction(union: &UnionShape) -> (compaction: Compaction)
    ensures
        compaction == union_compaction_of(*union),
{
    if union.compaction_is_identity {
        Compaction::Copy
    } else {
        Compaction::Checked
    }
}

/// How a merged proof's dense words are had.
pub open spec fn merged_compaction_of(union: UnionShape, mode: WitnessBufMode) -> Compaction {
    match (union_compaction_of(union), mode) {
        (Compaction::Checked, WitnessBufMode::PooledDirty) => Compaction::Unchecked,
        (compaction, _) => compaction,
    }
}

/// Whether buffers go back to the pool.
pub open spec fn goes_back(mode: WitnessBufMode) -> bool {
    mode != WitnessBufMode::FreshZeroed
}

/// Whether a filler may leave alone the words that it would set to zero.
pub open spec fn may_elide(mode: WitnessBufMode) -> bool {
    mode != WitnessBufMode::PooledZeroed
}

/// How a merged proof's dense words are had.
pub fn merged_compaction(union: &UnionShape, mode: WitnessBufMode) -> (compaction: Compaction)
    ensures
        compaction == merged_compaction_of(*union, mode),
        compaction == (if union.compaction_is_identity {
            Compaction::Copy
        } else if mode == WitnessBufMode::PooledDirty {
            Compaction::Unchecked
        } else {
            Compaction::Checked
        }),
{
    if union.compaction_is_identity {
        Compaction::Copy
    } else if mode == WitnessBufMode::PooledDirty {
        Compaction::Unchecked
    } else {
        Compaction::Checked
    }
}

/// Whether buffers go back to the pool.
pub fn gives_back(mode: WitnessBufMode) -> (back: bool)
    ensures
        back == (mode != WitnessBufMode::FreshZeroed),
        back == goes_back(mode),
{
    mode != WitnessBufMode::FreshZeroed
}

/// Whether a filler may leave alone the words that it would set to zero.
pub fn elides_zeros(mode: WitnessBufMode) -> (elides: bool)
    ensures
        elides == (mode != WitnessBufMode::PooledZeroed),
        elides == may_elide(mode),
{
    mode != WitnessBufMode::PooledZeroed
}

/// Steps stand in one fixed order, each at most once.
pub open spec fn ordered(steps: Seq<Step>) -> bool {
    forall|i: int, j: int|
        0 <= i < j < steps.len() ==> (#[trigger] steps[i]).rank() < (#[trigger] steps[j]).rank()
}

/// Every kind of proof makes its messages in the one order, each once: the
/// commitment before the statement is bound, every challenge after both, the
/// element class after the boolean one, the wiring after both classes and the
/// opening last.
pub proof fn proofs_keep_one_order(
    table: TableShape,
    transport: Transport,
    union: UnionShape,
    request: UnionRequest,
    lane_major: bool,
)
    ensures
        ordered(matrix_steps_of(table)),
        ordered(core_steps_of(table).push(Step::Open { transport })),
        ordered(union_steps_of(union, request)),
        ordered(merged_steps_of(union, lane_major)),
{
    let begin = seq![Step::BuildWitness { padding_unread: false }];
    let compact = when(!union.compaction_is_identity, Step::Compact);
    let commit = seq![Step::Commit { lane_major: request.lane_major }];
    let bind = seq![Step::Bind { binding: request.binding }];
    let save = when(union.num_element > 0, Step::SaveElementRows);
    let boolean = if union.num_boolean > 0 {
        checks(union.m_bool, union.m_bool - union.n_log)
    } else {
        Seq::empty()
    };
    let element = when(union.num_element > 0, Step::ElementReduction);
    let wiring = when(request.binding == Binding::Circuit, Step::Wiring);
    let open = seq![Step::Open { transport: request.transport }];
    lemma_join(begin, compact, 0, 1, 2);
    lemma_join(begin + compact, commit, 0, 2, 3);
    lemma_join(begin + compact + commit, bind, 0, 3, 4);
    lemma_join(begin + compact + commit + bind, save, 0, 4, 6);
    let first = begin + compact + commit + bind + save;
    lemma_join(first, boolean, 0, 6, 9);
    lemma_join(first + boolean, element, 0, 9, 10);
    lemma_join(first + boolean + element, wiring, 0, 10, 11);
    lemma_join(first + boolean + element + wiring, open, 0, 11, 12);
    lemma_merged_order(union, lane_major);
}

/// The transport of a registry's proof is its last choice: with another one,
/// every step but the opening stays.
pub proof fn transports_part_at_the_opening(
    union: UnionShape,
    request: UnionRequest,
    transport: Transport,
)
    ensures
        union_steps_of(union, UnionRequest { transport, ..request }) == union_steps_of(
            union,
            request,
        ).drop_last().push(Step::Open { transport }),
{
    assert(union_steps_of(union, UnionRequest { transport, ..request }) =~= union_steps_of(
        union,
        request,
    ).drop_last().push(Step::Open { transport }));
}

/// Both transports take the same inputs: whether a registry's proof is begun
/// does not depend on what carries its claims.
pub proof fn transports_admit_the_same(
    union: UnionShape,
    request: UnionRequest,
    transport: Transport,
)
    ensures
        union_refusal(union, UnionRequest { transport, ..request }) == union_refusal(
            union,
            request,
        ),
{
}

/// A merged proof of boolean tables is the jagged one up to its opening: once
/// the words are built and gathered, the same steps commit, bind and check,
/// and only the opening's transport differs.
pub proof fn merged_proofs_part_at_the_opening(
    union: UnionShape,
    request: UnionRequest,
    lane_major: bool,
)
    requires
        union.num_element == 0,
        union.num_boolean > 0,
        union.m_bool == union.m_total,
        request.binding == Binding::Mixed,
        request.transport == Transport::Jagged,
        request.lane_major == lane_major,
    ensures
        ({
            let merged = merged_steps_of(union, lane_major);
            let jagged = union_steps_of(union, request);
            let gathered: int = if union.compaction_is_identity {
                1
            } else {
                2
            };
            &&& merged.skip(2).drop_last() == jagged.skip(gathered).drop_last()
            &&& merged.last() == Step::Open { transport: Transport::Merged }
            &&& jagged.last() == Step::Open { transport: Transport::Jagged }
            &&& !union.compaction_is_identity ==> merged.len() == jagged.len() && jagged[1]
                == merged[1]
        }),
{
    let merged = merged_steps_of(union, lane_major);
    let jagged = union_steps_of(union, request);
    let gathered: int = if union.compaction_is_identity {
        1
    } else {
        2
    };
    let core = seq![Step::Commit { lane_major }, Step::Bind { binding: Binding::Mixed }] + checks(
        union.m_total,
        union.m_total - union.n_log,
    );
    assert(merged.skip(2).drop_last() =~= core);
    assert(jagged.skip(gathered).drop_last() =~= core);
}

/// The merged proof's steps are in order.
proof fn lemma_merged_order(union: UnionShape, lane_major: bool)
    ensures
        ordered(merged_steps_of(union, lane_major)),
{
}

/// The steps are in order, and their ranks lie in `low..high`.
spec fn within(steps: Seq<Step>, low: int, high: int) -> bool {
    &&& ordered(steps)
    &&& forall|i: int| 0 <= i < steps.len() ==> low <= (#[trigger] steps[i]).rank() < high
}

/// Ordered steps followed by later ordered steps are ordered.
proof fn lemma_join(first: Seq<Step>, second: Seq<Step>, low: int, middle: int, high: int)
    requires
        within(first, low, middle),
        within(second, middle, high),
        low <= middle <= high,
    ensures
        within(first + second, low, high),
{
    let all = first + second;
    assert forall|i: int, j: int| 0 <= i < j < all.len() implies (#[trigger] all[i]).rank() < (
    #[trigger] all[j]).rank() by {
        if j < first.len() {
            assert(first[i].rank() < first[j].rank());
        } else if i >= first.len() {
            assert(second[i - first.len()].rank() < second[j - first.len()].rank());
        } else {
            assert(first[i].rank() < middle <= second[j - first.len()].rank());
        }
    }
    assert forall|i: int| 0 <= i < all.len() implies low <= (#[trigger] all[i]).rank() < high by {
        if i < first.len() {
            assert(first[i].rank() < middle);
        } else {
            assert(second[i - first.len()].rank() >= middle);
        }
    }
}

/// The transport is the last choice of a registry's proof: every step before
/// the opening is the same over each.
pub proof fn transport_is_the_last_step(
    union: UnionShape,
    request: UnionRequest,
    transport: Transport,
)
    ensures
        ({
            let other = UnionRequest { transport, ..request };
            &&& union_steps_of(union, request).last() == (Step::Open {
                transport: request.transport,
            })
            &&& union_steps_of(union, other).drop_last() == union_steps_of(
                union,
                request,
            ).drop_last()
        }),
{
    let other = UnionRequest { transport, ..request };
    assert(union_steps_of(union, other).drop_last() =~= union_steps_of(union, request).drop_last());
}

/// A registry without element tables whose statement is no circuit runs neither
/// the element reduction nor the wiring.
pub proof fn boolean_proofs_are_boolean(union: UnionShape, request: UnionRequest)
    requires
        union.num_element == 0,
        request.binding != Binding::Circuit,
    ensures
        !union_steps_of(union, request).contains(Step::ElementReduction),
        !union_steps_of(union, request).contains(Step::SaveElementRows),
        !union_steps_of(union, request).contains(Step::Wiring),
{
}

/// A step is among two lists' steps exactly where it is among those of one.
proof fn lemma_either(first: Seq<Step>, second: Seq<Step>, step: Step)
    ensures
        (first + second).contains(step) <==> first.contains(step) || second.contains(step),
{
    let all = first + second;
    if first.contains(step) {
        let i = choose|i: int| 0 <= i < first.len() && first[i] == step;
        assert(all[i] == step);
    }
    if second.contains(step) {
        let i = choose|i: int| 0 <= i < second.len() && second[i] == step;
        assert(all[first.len() + i] == step);
    }
    if all.contains(step) {
        let i = choose|i: int| 0 <= i < all.len() && all[i] == step;
        if i < first.len() {
            assert(first[i] == step);
        } else {
            assert(second[i - first.len()] == step);
        }
    }
}

proof fn lemma_one(one: Step, step: Step)
    ensures
        seq![one].contains(step) <==> step == one,
{
    assert(seq![one][0] == one);
}

proof fn lemma_when(condition: bool, one: Step, step: Step)
    ensures
        (when(condition, one)).contains(step) <==> condition && step == one,
{
    lemma_one(one, step);
}

proof fn lemma_checks(variables: usize, inner: int, step: Step)
    ensures
        checks(variables, inner).contains(step) <==> match step {
            Step::Zerocheck { variables: v } => v == variables,
            Step::Lincheck => true,
            Step::PrecomputeRows => inner >= 7,
            _ => false,
        },
{
    let pair = seq![Step::Zerocheck { variables }, Step::Lincheck];
    assert(pair =~= seq![Step::Zerocheck { variables }] + seq![Step::Lincheck]);
    lemma_either(seq![Step::Zerocheck { variables }], seq![Step::Lincheck], step);
    lemma_one(Step::Zerocheck { variables }, step);
    lemma_one(Step::Lincheck, step);
    lemma_when(inner >= LOG_PACKING, Step::PrecomputeRows, step);
    lemma_either(pair, when(inner >= LOG_PACKING, Step::PrecomputeRows), step);
}

proof fn lemma_union_contains(union: UnionShape, request: UnionRequest, step: Step)
    ensures
        union_steps_of(union, request).contains(step) <==> match step {
            Step::BuildWitness { padding_unread } => !padding_unread,
            Step::Compact => !union.compaction_is_identity,
            Step::Commit { lane_major } => lane_major == request.lane_major,
            Step::Bind { binding } => binding == request.binding,
            Step::Apply { .. } => false,
            Step::SaveElementRows => union.num_element > 0,
            Step::Zerocheck { variables } => union.num_boolean > 0 && variables == union.m_bool,
            Step::Lincheck => union.num_boolean > 0,
            Step::PrecomputeRows => union.num_boolean > 0 && union.m_bool - union.n_log >= 7,
            Step::ElementReduction => union.num_element > 0,
            Step::Wiring => request.binding == Binding::Circuit,
            Step::Open { transport } => transport == request.transport,
        },
{
    let begin = seq![Step::BuildWitness { padding_unread: false }];
    let compact = when(!union.compaction_is_identity, Step::Compact);
    let commit = seq![Step::Commit { lane_major: request.lane_major }];
    let bind = seq![Step::Bind { binding: request.binding }];
    let save = when(union.num_element > 0, Step::SaveElementRows);
    let boolean = if union.num_boolean > 0 {
        checks(union.m_bool, union.m_bool - union.n_log)
    } else {
        Seq::empty()
    };
    let element = when(union.num_element > 0, Step::ElementReduction);
    let wiring = when(request.binding == Binding::Circuit, Step::Wiring);
    let open = seq![Step::Open { transport: request.transport }];
    lemma_one(Step::BuildWitness { padding_unread: false }, step);
    lemma_when(!union.compaction_is_identity, Step::Compact, step);
    lemma_one(Step::Commit { lane_major: request.lane_major }, step);
    lemma_one(Step::Bind { binding: request.binding }, step);
    lemma_when(union.num_element > 0, Step::SaveElementRows, step);
    lemma_checks(union.m_bool, union.m_bool - union.n_log, step);
    lemma_when(union.num_element > 0, Step::ElementReduction, step);
    lemma_when(request.binding == Binding::Circuit, Step::Wiring, step);
    lemma_one(Step::Open { transport: request.transport }, step);
    lemma_either(begin, compact, step);
    lemma_either(begin + compact, commit, step);
    lemma_either(begin + compact + commit, bind, step);
    lemma_either(begin + compact + commit + bind, save, step);
    let first = begin + compact + commit + bind + save;
    lemma_either(first, boolean, step);
    lemma_either(first + boolean, element, step);
    lemma_either(first + boolean + element, wiring, step);
    lemma_either(first + boolean + element + wiring, open, step);
}

/// What a registry's proof runs is what its tables and its statement ask for,
/// each whatever the others are: the boolean checks where it has boolean
/// tables, the element class's rows and reduction where it has element tables,
/// the wiring where the statement is a circuit, the gathering where it changes
/// something. It always builds, commits as asked, binds the statement it was
/// given and opens over the transport it was given, and nothing else is run.
pub proof fn registries_run_what_they_hold(union: UnionShape, request: UnionRequest)
    ensures
        ({
            let steps = union_steps_of(union, request);
            &&& steps.contains(Step::Wiring) <==> request.binding == Binding::Circuit
            &&& steps.contains(Step::ElementReduction) <==> union.num_element > 0
            &&& steps.contains(Step::SaveElementRows) <==> union.num_element > 0
            &&& forall|variables: usize|
                #[trigger] steps.contains(Step::Zerocheck { variables }) <==> union.num_boolean > 0
                    && variables == union.m_bool
            &&& steps.contains(Step::Lincheck) <==> union.num_boolean > 0
            &&& steps.contains(Step::PrecomputeRows) <==> union.num_boolean > 0 && union.m_bool
                - union.n_log >= 7
            &&& steps.contains(Step::Compact) <==> !union.compaction_is_identity
            &&& forall|padding_unread: bool|
                #[trigger] steps.contains(Step::BuildWitness { padding_unread })
                    <==> !padding_unread
            &&& forall|lane_major: bool|
                #[trigger] steps.contains(Step::Commit { lane_major }) <==> lane_major
                    == request.lane_major
            &&& forall|binding: Binding|
                #[trigger] steps.contains(Step::Bind { binding }) <==> binding == request.binding
            &&& forall|third: bool| !#[trigger] steps.contains(Step::Apply { third })
            &&& forall|transport: Transport|
                #[trigger] steps.contains(Step::Open { transport }) <==> transport
                    == request.transport
            &&& steps[0] == (Step::BuildWitness { padding_unread: false })
            &&& steps.last() == (Step::Open { transport: request.transport })
        }),
{
    let steps = union_steps_of(union, request);
    lemma_union_contains(union, request, Step::Wiring);
    lemma_union_contains(union, request, Step::ElementReduction);
    lemma_union_contains(union, request, Step::SaveElementRows);
    lemma_union_contains(union, request, Step::Lincheck);
    lemma_union_contains(union, request, Step::PrecomputeRows);
    lemma_union_contains(union, request, Step::Compact);
    assert forall|variables: usize|
        #[trigger] steps.contains(Step::Zerocheck { variables }) <==> union.num_boolean > 0
            && variables == union.m_bool by {
        lemma_union_contains(union, request, Step::Zerocheck { variables });
    }
    assert forall|padding_unread: bool|
        #[trigger] steps.contains(Step::BuildWitness { padding_unread }) <==> !padding_unread by {
        lemma_union_contains(union, request, Step::BuildWitness { padding_unread });
    }
    assert forall|lane_major: bool|
        #[trigger] steps.contains(Step::Commit { lane_major }) <==> lane_major
            == request.lane_major by {
        lemma_union_contains(union, request, Step::Commit { lane_major });
    }
    assert forall|binding: Binding|
        #[trigger] steps.contains(Step::Bind { binding }) <==> binding == request.binding by {
        lemma_union_contains(union, request, Step::Bind { binding });
    }
    assert forall|third: bool| !#[trigger] steps.contains(Step::Apply { third }) by {
        lemma_union_contains(union, request, Step::Apply { third });
    }
    assert forall|transport: Transport|
        #[trigger] steps.contains(Step::Open { transport }) <==> transport == request.transport by {
        lemma_union_contains(union, request, Step::Open { transport });
    }
}

/// No step of a registry's proof stands before one that it needs: the words
/// are gathered before they are committed, the commitment is made before the
/// statement is bound, no challenge is drawn before that, the element rows are
/// saved before the boolean checks consume them, the linear check follows the
/// zero check, the element reduction follows the boolean class, the wiring
/// follows both classes and the opening follows everything.
pub proof fn registries_run_in_order(union: UnionShape, request: UnionRequest, i: int, j: int)
    requires
        0 <= i < union_steps_of(union, request).len(),
        0 <= j < union_steps_of(union, request).len(),
    ensures
        ({
            let (one, other) = (
                union_steps_of(union, request)[i],
                union_steps_of(union, request)[j],
            );
            &&& one is Compact && other is Commit ==> i < j
            &&& one is Commit && other is Bind ==> i < j
            &&& one is Bind && (other is SaveElementRows || other is Zerocheck
                || other is ElementReduction || other is Wiring) ==> i < j
            &&& one is SaveElementRows && other is Zerocheck ==> i < j
            &&& one is Zerocheck && other is Lincheck ==> i < j
            &&& one is Lincheck && other is PrecomputeRows ==> i < j
            &&& (one is Lincheck || one is PrecomputeRows) && (other is ElementReduction
                || other is Wiring) ==> i < j
            &&& one is ElementReduction && other is Wiring ==> i < j
            &&& other is Open && !(one is Open) ==> i < j
            &&& one == other ==> i == j
        }),
{
    proofs_keep_one_order(
        TableShape { m: 0, k_log: 0, layout: WitnessLayout::RowMajor, third_is_identity: true },
        request.transport,
        union,
        request,
        request.lane_major,
    );
}

/// The proofs of a table: each commits, binds the table, runs both checks over
/// all of its variables and opens what they left, and derives the folded rows
/// exactly where a block fills a word. From matrices the third one is applied
/// exactly where it is not the identity; from products nothing is applied.
pub proof fn tables_run_every_check(table: TableShape, transport: Transport)
    ensures
        ({
            let matrices = matrix_steps_of(table);
            let products = core_steps_of(table).push(Step::Open { transport });
            let rows = if table.k_log >= 7 {
                1int
            } else {
                0
            };
            &&& matrices.len() == 6 + rows
            &&& matrices[0] == (Step::Commit { lane_major: false })
            &&& matrices[1] == (Step::Bind { binding: Binding::Table })
            &&& matrices[2] == (Step::Apply { third: !table.third_is_identity })
            &&& matrices[3] == (Step::Zerocheck { variables: table.m })
            &&& matrices[4] == Step::Lincheck
            &&& matrices.contains(Step::PrecomputeRows) <==> table.k_log >= 7
            &&& matrices.contains(Step::Apply { third: true }) <==> !table.third_is_identity
            &&& matrices.contains(Step::Apply { third: false }) <==> table.third_is_identity
            &&& matrices.last() == (Step::Open { transport: Transport::Direct })
            &&& products.len() == 5 + rows
            &&& products.take(2) == matrices.take(2)
            &&& products.skip(2).drop_last() == matrices.skip(3).drop_last()
            &&& products.contains(Step::PrecomputeRows) <==> table.k_log >= 7
            &&& products.last() == (Step::Open { transport })
        }),
{
    let matrices = matrix_steps_of(table);
    let products = core_steps_of(table).push(Step::Open { transport });
    assert(products.take(2) =~= matrices.take(2));
    assert(products.skip(2).drop_last() =~= matrices.skip(3).drop_last());
    assert(matrices[2] == (Step::Apply { third: !table.third_is_identity }));
    if table.k_log >= 7 {
        assert(matrices[5] == Step::PrecomputeRows);
        assert(products[4] == Step::PrecomputeRows);
    }
}

/// A merged proof gathers, commits as asked, binds the registry, runs both
/// checks over all of the padded variables and opens over the dense words. The
/// padding is left unread exactly where the folded rows come from the linear
/// check.
pub proof fn merged_proofs_run_every_check(union: UnionShape, lane_major: bool)
    ensures
        ({
            let steps = merged_steps_of(union, lane_major);
            let unread = union.m_total - union.n_log >= 7;
            &&& steps.len() == if unread {
                8int
            } else {
                7
            }
            &&& steps[0] == (Step::BuildWitness { padding_unread: unread })
            &&& steps[1] == Step::Compact
            &&& steps[2] == (Step::Commit { lane_major })
            &&& steps[3] == (Step::Bind { binding: Binding::Mixed })
            &&& steps[4] == (Step::Zerocheck { variables: union.m_total })
            &&& steps[5] == Step::Lincheck
            &&& unread ==> steps[6] == Step::PrecomputeRows
            &&& steps.contains(Step::BuildWitness { padding_unread: true }) <==> steps.contains(
                Step::PrecomputeRows,
            )
            &&& steps.contains(Step::PrecomputeRows) <==> unread
            &&& steps.contains(Step::Commit { lane_major })
            &&& !steps.contains(Step::Wiring)
            &&& !steps.contains(Step::ElementReduction)
            &&& steps.last() == (Step::Open { transport: Transport::Merged })
        }),
{
    let steps = merged_steps_of(union, lane_major);
    assert(steps[2] == (Step::Commit { lane_major }));
    if union.m_total - union.n_log >= 7 {
        assert(steps[0] == (Step::BuildWitness { padding_unread: true }));
        assert(steps[6] == Step::PrecomputeRows);
    }
}

/// A registry's proof is begun exactly where the commitment is to its dense
/// words, there is one input for every table of each class and, where it is
/// bound as one table, it has one table. The first of these that fails is the
/// one named.
pub proof fn registries_are_refused_for_cause(union: UnionShape, request: UnionRequest)
    ensures
        ({
            let refusal = union_refusal(union, request);
            let one_table = (union.num_boolean == 1 && union.num_element == 0) || (union.num_boolean
                == 0 && union.num_element == 1);
            let bound = request.binding == Binding::SingleTypeHarness ==> one_table;
            &&& refusal is None <==> bound && request.params_m == union.dense_m
                && request.boolean_inputs == union.num_boolean && request.element_inputs
                == union.num_element
            &&& refusal == Some(UnionRefusal::NotSingleType) <==> !bound
            &&& refusal == Some(UnionRefusal::CommitmentSize) <==> bound && request.params_m
                != union.dense_m
            &&& refusal == Some(UnionRefusal::BooleanInputs) <==> bound && request.params_m
                == union.dense_m && request.boolean_inputs != union.num_boolean
            &&& refusal == Some(UnionRefusal::ElementInputs) <==> bound && request.params_m
                == union.dense_m && request.boolean_inputs == union.num_boolean
                && request.element_inputs != union.num_element
            &&& refusal != Some(UnionRefusal::ElementTables)
        }),
{
}

/// A merged proof is begun exactly where the registry's own proof would be over
/// the same commitment and inputs, and there are no element tables.
pub proof fn merged_proofs_are_refused_for_cause(
    union: UnionShape,
    request: UnionRequest,
    params_m: usize,
    inputs: usize,
)
    requires
        request.binding == Binding::Mixed,
        request.params_m == params_m,
        request.boolean_inputs == inputs,
        request.element_inputs == 0,
    ensures
        merged_refusal(union, params_m, inputs) is None <==> union.num_element == 0
            && union_refusal(union, request) is None,
        merged_refusal(union, params_m, inputs) is None <==> union.num_element == 0 && params_m
            == union.dense_m && inputs == union.num_boolean,
        merged_refusal(union, params_m, inputs) == Some(UnionRefusal::ElementTables)
            <==> union.num_element > 0,
        union.num_element == 0 ==> merged_refusal(union, params_m, inputs) == union_refusal(
            union,
            request,
        ),
{
}

/// A proof from matrices is begun exactly on rows that lie together, a word for
/// every 128 cells and a commitment to as many variables; one from products is
/// begun everywhere over the words themselves, and over either other transport
/// exactly where the batch's rows lie together.
pub proof fn tables_are_refused_for_cause(
    table: TableShape,
    words: usize,
    params_m: usize,
    transport: Transport,
)
    ensures
        matrix_refusal(table, words, params_m) is None <==> table.layout == WitnessLayout::RowMajor
            && table.m >= 7 && words * 128 == vstd::arithmetic::power2::pow2(table.m as nat)
            && params_m == table.m,
        matrix_refusal(table, words, params_m) == Some(TableRefusal::NotRowMajor) <==> table.layout
            == WitnessLayout::BatchMajor,
        matrix_refusal(table, words, params_m) == Some(TableRefusal::WitnessLength)
            <==> table.layout == WitnessLayout::RowMajor && !(table.m >= 7 && words * 128
            == vstd::arithmetic::power2::pow2(table.m as nat)),
        table_refusal(table, Transport::Direct) is None,
        table_refusal(table, Transport::Jagged) == table_refusal(table, Transport::Merged),
        table_refusal(table, Transport::Jagged) is None <==> table.layout
            == WitnessLayout::BatchMajor,
        table_refusal(table, Transport::Jagged) is Some ==> table_refusal(table, Transport::Jagged)
            == Some(TableRefusal::NotBatchMajor),
        table_refusal(table, transport) is Some ==> transport != Transport::Direct,
{
    vstd::arithmetic::power2::lemma2_to64();
    if table.m >= 7 {
        vstd::arithmetic::power2::lemma_pow2_adds(7, (table.m - 7) as nat);
    }
}

/// The dense words are a copy exactly where the gathering changes nothing, and
/// the dropped words go unlooked at exactly where a merged proof gathers from
/// dirty buffers. On clean ones both kinds of proof have their words alike, and
/// a registry's proof gathers as a step exactly where its words are no copy.
pub proof fn dirty_words_are_never_looked_at(
    union: UnionShape,
    request: UnionRequest,
    mode: WitnessBufMode,
)
    ensures
        merged_compaction_of(union, mode) == Compaction::Copy <==> union.compaction_is_identity,
        merged_compaction_of(union, mode) == Compaction::Unchecked
            <==> !union.compaction_is_identity && mode == WitnessBufMode::PooledDirty,
        mode != WitnessBufMode::PooledDirty ==> merged_compaction_of(union, mode)
            == union_compaction_of(union),
        union_compaction_of(union) != Compaction::Unchecked,
        union_compaction_of(union) == Compaction::Copy <==> union.compaction_is_identity,
        union_steps_of(union, request).contains(Step::Compact) <==> union_compaction_of(union)
            != Compaction::Copy,
{
    registries_run_what_they_hold(union, request);
}

/// Buffers go back to the pool exactly where they came from it, and zeros may
/// be left out everywhere but in the pool's zeroed buffers.
pub proof fn pooled_buffers_go_back()
    ensures
        goes_back(WitnessBufMode::PooledZeroed),
        goes_back(WitnessBufMode::PooledDirty),
        !goes_back(WitnessBufMode::FreshZeroed),
        !may_elide(WitnessBufMode::PooledZeroed),
        may_elide(WitnessBufMode::PooledDirty),
        may_elide(WitnessBufMode::FreshZeroed),
{
}

} // verus!
