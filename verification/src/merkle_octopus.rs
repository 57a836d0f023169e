//! Merkle proofs of many leaves at once, with shared siblings left out.
use vstd::arithmetic::power2::{lemma2_to64, lemma_pow2_pos, lemma_pow2_unfold, pow2};
use vstd::prelude::*;

verus! {

/// A node of the tree.
pub type Hash = [u8; 32];

/// The sibling of a node in its level.
pub open spec fn sibling(p: int) -> int {
    if p % 2 == 0 {
        p + 1
    } else {
        p - 1
    }
}

/// Node `p` of a level, counted from the leaves, has a position below it.
pub open spec fn active(positions: Seq<usize>, level: nat, p: int) -> bool {
    exists|i: int|
        0 <= i < positions.len() && (#[trigger] positions[i]) as int / pow2(level) as int == p
}

/// Where a level starts: the tree lists the leaves first, then their parents.
pub open spec fn level_start(num_leaves: int, level: nat) -> int
    decreases level,
{
    if level == 0 {
        0
    } else {
        level_start(num_leaves, (level - 1) as nat) + num_leaves / pow2((level - 1) as nat) as int
    }
}

/// The siblings that the first `n` nodes of a level need: those of active
/// nodes that are not active themselves.
pub open spec fn level_siblings(
    tree: Seq<Hash>,
    num_leaves: int,
    positions: Seq<usize>,
    level: nat,
    n: int,
) -> Seq<Hash>
    decreases n,
{
    if n <= 0 {
        seq![]
    } else {
        let before = level_siblings(tree, num_leaves, positions, level, n - 1);
        if active(positions, level, n - 1) && !active(positions, level, sibling(n - 1)) {
            before.push(tree[level_start(num_leaves, level) + sibling(n - 1)])
        } else {
            before
        }
    }
}

/// The siblings of the first `levels` levels, from the leaves up.
pub open spec fn proof_siblings(
    tree: Seq<Hash>,
    num_leaves: int,
    positions: Seq<usize>,
    levels: nat,
) -> Seq<Hash>
    decreases levels,
{
    if levels == 0 {
        seq![]
    } else {
        let level = (levels - 1) as nat;
        proof_siblings(tree, num_leaves, positions, level) + level_siblings(
            tree,
            num_leaves,
            positions,
            level,
            num_leaves / pow2(level) as int,
        )
    }
}

/// A node is active if one of its two children is.
proof fn lemma_parent(positions: Seq<usize>, level: nat, p: int)
    requires
        0 <= p,
    ensures
        active(positions, level + 1, p) <==> (active(positions, level, 2 * p) || active(
            positions,
            level,
            2 * p + 1,
        )),
{
    lemma_pow2_unfold(level + 1);
    lemma_pow2_pos(level);
    let m = pow2(level) as int;
    assert forall|i: int| 0 <= i < positions.len() implies #[trigger] positions[i] as int / pow2(
        level + 1,
    ) as int == (positions[i] as int / m) / 2 by {
        vstd::arithmetic::div_mod::lemma_div_denominator(positions[i] as int, m, 2);
        assert(m * 2 == pow2(level + 1));
    }
    if active(positions, level + 1, p) {
        let i = choose|i: int|
            0 <= i < positions.len() && (#[trigger] positions[i]) as int / pow2(level + 1) as int
                == p;
        let q = positions[i] as int / m;
        assert(q == 2 * p || q == 2 * p + 1);
    }
    if active(positions, level, 2 * p) {
        let i = choose|i: int|
            0 <= i < positions.len() && (#[trigger] positions[i]) as int / m == 2 * p;
        assert((positions[i] as int / m) / 2 == p);
    }
    if active(positions, level, 2 * p + 1) {
        let i = choose|i: int|
            0 <= i < positions.len() && (#[trigger] positions[i]) as int / m == 2 * p + 1;
        assert((positions[i] as int / m) / 2 == p);
    }
}

/// Levels tile the tree.
proof fn lemma_levels(k: nat, level: nat)
    requires
        level <= k,
    ensures
        pow2(k) as int / pow2(level) as int == pow2((k - level) as nat),
        level_start(pow2(k) as int, level) + 2 * pow2((k - level) as nat) == 2 * pow2(k),
    decreases level,
{
    vstd::arithmetic::power2::lemma_pow2_adds((k - level) as nat, level);
    lemma_pow2_pos(level);
    vstd::arithmetic::div_mod::lemma_fundamental_div_mod_converse(
        pow2(k) as int,
        pow2(level) as int,
        pow2((k - level) as nat) as int,
        0,
    );
    if level > 0 {
        lemma_levels(k, (level - 1) as nat);
        lemma_pow2_unfold((k - level + 1) as nat);
    }
}

/// The sibling hashes that verify the leaves at `positions` against the root,
/// from the leaves up; a sibling that is itself on a path is left out.
pub fn merkle_multi_proof(tree: &[Hash], num_leaves: usize, positions: &[usize]) -> (proof: Vec<Hash>)
    requires
        exists|k: nat| #[trigger] pow2(k) == num_leaves,
        tree@.len() == 2 * num_leaves - 1,
        forall|i: int| 0 <= i < positions@.len() ==> (#[trigger] positions@[i]) < num_leaves,
    ensures
        forall|k: nat| #[trigger]
            pow2(k) == num_leaves ==> proof@ == proof_siblings(
                tree@,
                num_leaves as int,
                positions@,
                k,
            ),
{
    let ghost k = choose|k: nat| #[trigger] pow2(k) == num_leaves;
    let total: usize = tree.len();
    let mut flags: Vec<bool> = Vec::with_capacity(num_leaves);
    while flags.len() < num_leaves
        invariant
            flags@.len() <= num_leaves,
            forall|p: int| 0 <= p < flags@.len() ==> !(#[trigger] flags@[p]),
        decreases num_leaves - flags@.len(),
    {
        flags.push(false);
    }
    let mut i: usize = 0;
    while i < positions.len()
        invariant
            forall|i: int| 0 <= i < positions@.len() ==> (#[trigger] positions@[i]) < num_leaves,
            i <= positions@.len(),
            flags@.len() == num_leaves,
            forall|p: int|
                0 <= p < num_leaves ==> #[trigger] flags@[p] == active(
                    positions@.take(i as int),
                    0,
                    p,
                ),
        decreases positions@.len() - i,
    {
        let ghost before = flags@;
        let position: usize = positions[i];
        flags.set(position, true);
        proof {
            lemma2_to64();
            assert forall|p: int| 0 <= p < num_leaves implies #[trigger] flags@[p] == active(
                positions@.take(i + 1),
                0,
                p,
            ) by {
                lemma_more(positions@, i as int, p);
                assert(before[p] == active(positions@.take(i as int), 0, p));
            }
        }
        i = i + 1;
    }
    assert(positions@.take(i as int) =~= positions@);
    let mut proof: Vec<Hash> = Vec::new();
    let mut start: usize = 0;
    let mut len: usize = num_leaves;
    let ghost mut level: nat = 0;
    proof {
        lemma_levels(k, 0);
        lemma2_to64();
    }
    while len > 1
        invariant
            pow2(k) == num_leaves,
            tree@.len() == 2 * num_leaves - 1,
            total == tree@.len(),
            level <= k,
            len == pow2((k - level) as nat),
            start == level_start(num_leaves as int, level),
            start + 2 * len == 2 * num_leaves,
            flags@.len() == len,
            forall|p: int| 0 <= p < len ==> #[trigger] flags@[p] == active(positions@, level, p),
            proof@ == proof_siblings(tree@, num_leaves as int, positions@, level),
        decreases len,
    {
        proof {
            if level == k {
                lemma2_to64();
            }
            lemma_pow2_unfold((k - level) as nat);
            lemma_levels(k, level);
            lemma_levels(k, level + 1);
        }
        let half: usize = len / 2;
        let mut next: Vec<bool> = Vec::with_capacity(half);
        let ghost done = proof@;
        let mut p: usize = 0;
        assert(proof@ =~= done + level_siblings(
            tree@,
            num_leaves as int,
            positions@,
            level,
            0,
        ));
        while p < half
            invariant
                total == tree@.len(),
                tree@.len() == 2 * num_leaves - 1,
                half == len / 2,
                len == 2 * half,
                start == level_start(num_leaves as int, level),
                start + 2 * len == 2 * num_leaves,
                flags@.len() == len,
                forall|p: int|
                    0 <= p < len ==> #[trigger] flags@[p] == active(positions@, level, p),
                p <= half,
                next@.len() == p,
                forall|q: int|
                    0 <= q < p ==> #[trigger] next@[q] == active(positions@, level + 1, q),
                proof@ == done + level_siblings(
                    tree@,
                    num_leaves as int,
                    positions@,
                    level,
                    2 * p,
                ),
            decreases half - p,
        {
            let left = flags[2 * p];
            let right = flags[2 * p + 1];
            proof {
                lemma_parent(positions@, level, p as int);
                let (a, b) = (2 * p as int, 2 * p as int + 1);
                assert(sibling(a) == b && sibling(b) == a);
                reveal_with_fuel(level_siblings, 3);
            }
            if left && !right {
                proof.push(tree[start + 2 * p + 1]);
            } else if right && !left {
                proof.push(tree[start + 2 * p]);
            }
            next.push(left || right);
            p = p + 1;
            assert(proof@ =~= done + level_siblings(
                tree@,
                num_leaves as int,
                positions@,
                level,
                2 * p,
            ));
        }
        flags = next;
        start = start + len;
        len = half;
        proof {
            level = level + 1;
            assert(proof@ =~= proof_siblings(tree@, num_leaves as int, positions@, level));
        }
    }
    proof {
        if level < k {
            lemma_pow2_unfold((k - level) as nat);
            lemma_pow2_pos((k - level - 1) as nat);
        }
        assert forall|j: nat| #[trigger] pow2(j) == num_leaves implies proof@ == proof_siblings(
            tree@,
            num_leaves as int,
            positions@,
            j,
        ) by {
            if j < k {
                vstd::arithmetic::power2::lemma_pow2_strictly_increases(j, k);
            } else if k < j {
                vstd::arithmetic::power2::lemma_pow2_strictly_increases(k, j);
            }
        }
    }
    proof
}

/// One more position.
proof fn lemma_more(positions: Seq<usize>, n: int, p: int)
    requires
        0 <= n < positions.len(),
    ensures
        active(positions.take(n + 1), 0, p) <==> (active(positions.take(n), 0, p) || positions[n]
            == p),
{
    lemma2_to64();
    let (a, b) = (positions.take(n), positions.take(n + 1));
    assert forall|x: int| #[trigger] (x / 1) == x by {}
    if active(b, 0, p) {
        let i = choose|i: int| 0 <= i < b.len() && (#[trigger] b[i]) as int / pow2(0) as int == p;
        if i < n {
            assert(a[i] == b[i]);
        }
    }
    if active(a, 0, p) {
        let i = choose|i: int| 0 <= i < a.len() && (#[trigger] a[i]) as int / pow2(0) as int == p;
        assert(b[i] == a[i]);
    }
    if positions[n] == p {
        assert(b[n] == positions[n]);
        assert(b[n] as int / pow2(0) as int == p);
    }
}

/// The first `n` nodes of the level above, as a verifier rebuilds them from the
/// nodes it knows of a level and the proof from entry `at` on, and the entry it
/// has come to. A missing child is the proof's next entry.
pub open spec fn rebuilt_level(
    node: spec_fn(Hash, Hash) -> Hash,
    positions: Seq<usize>,
    level: nat,
    known: Seq<Hash>,
    proof: Seq<Hash>,
    at: int,
    n: int,
) -> (Seq<Hash>, int)
    decreases n,
{
    if n <= 0 {
        (seq![], at)
    } else {
        let (above, next) = rebuilt_level(node, positions, level, known, proof, at, n - 1);
        let (left, right) = (2 * (n - 1), 2 * (n - 1) + 1);
        match (active(positions, level, left), active(positions, level, right)) {
            (true, true) => (above.push(node(known[left], known[right])), next),
            (true, false) => (above.push(node(known[left], proof[next])), next + 1),
            (false, true) => (above.push(node(proof[next], known[right])), next + 1),
            (false, false) => (above.push(known[left]), next),
        }
    }
}

/// A level of the tree over `2^k` leaves as a verifier rebuilds it from the
/// leaves at the positions, and the entries of the proof that it has read.
pub open spec fn rebuilt(
    node: spec_fn(Hash, Hash) -> Hash,
    positions: Seq<usize>,
    leaves: Seq<Hash>,
    proof: Seq<Hash>,
    k: nat,
    level: nat,
) -> (Seq<Hash>, int)
    decreases level,
{
    if level == 0 {
        (leaves, 0)
    } else {
        let below = (level - 1) as nat;
        let (known, at) = rebuilt(node, positions, leaves, proof, k, below);
        rebuilt_level(
            node,
            positions,
            below,
            known,
            proof,
            at,
            pow2((k - level) as nat) as int,
        )
    }
}

/// Every inner node of the tree over `2^k` leaves is the node over its two
/// children; the leaves come first, then each level after the one below it.
pub open spec fn is_merkle_tree(
    node: spec_fn(Hash, Hash) -> Hash,
    tree: Seq<Hash>,
    k: nat,
) -> bool {
    &&& tree.len() == 2 * pow2(k) - 1
    &&& forall|level: nat, p: int|
        #![trigger tree[2 * pow2(k) - 2 * pow2((k - level - 1) as nat) + p]]
        level < k && 0 <= p < pow2((k - level - 1) as nat) ==> tree[2 * pow2(k) - 2 * pow2(
            (k - level - 1) as nat,
        ) + p] == node(
            tree[2 * pow2(k) - 2 * pow2((k - level) as nat) + 2 * p],
            tree[2 * pow2(k) - 2 * pow2((k - level) as nat) + 2 * p + 1],
        )
}

proof fn lemma_proof_prefix(
    tree: Seq<Hash>,
    num_leaves: int,
    positions: Seq<usize>,
    level: nat,
    levels: nat,
)
    requires
        level <= levels,
    ensures
        proof_siblings(tree, num_leaves, positions, level).len() <= proof_siblings(
            tree,
            num_leaves,
            positions,
            levels,
        ).len(),
        forall|i: int|
            0 <= i < proof_siblings(tree, num_leaves, positions, level).len()
                ==> #[trigger] proof_siblings(tree, num_leaves, positions, level)[i]
                == proof_siblings(tree, num_leaves, positions, levels)[i],
    decreases levels,
{
    if level < levels {
        lemma_proof_prefix(tree, num_leaves, positions, level, (levels - 1) as nat);
    }
}

/// One level of the rebuilding, over the first `n` pairs.
proof fn lemma_rebuilt_level(
    node: spec_fn(Hash, Hash) -> Hash,
    tree: Seq<Hash>,
    positions: Seq<usize>,
    k: nat,
    level: nat,
    known: Seq<Hash>,
    n: int,
)
    requires
        level < k,
        is_merkle_tree(node, tree, k),
        0 <= n <= pow2((k - level - 1) as nat),
        forall|p: int|
            0 <= p < pow2((k - level) as nat) && active(positions, level, p)
                ==> #[trigger] known[p] == tree[level_start(pow2(k) as int, level) + p],
    ensures
        ({
            let num_leaves = pow2(k) as int;
            let proof = proof_siblings(tree, num_leaves, positions, k);
            let at = proof_siblings(tree, num_leaves, positions, level).len() as int;
            let (above, next) = rebuilt_level(node, positions, level, known, proof, at, n);
            &&& above.len() == n
            &&& next == at + level_siblings(tree, num_leaves, positions, level, 2 * n).len()
            &&& forall|p: int|
                0 <= p < n && active(positions, (level + 1) as nat, p) ==> #[trigger] above[p]
                    == tree[level_start(num_leaves, (level + 1) as nat) + p]
        }),
    decreases n,
{
    let num_leaves = pow2(k) as int;
    lemma_levels(k, level);
    lemma_levels(k, level + 1);
    lemma_pow2_unfold((k - level) as nat);
    if n > 0 {
        lemma_rebuilt_level(node, tree, positions, k, level, known, n - 1);
        let proof = proof_siblings(tree, num_leaves, positions, k);
        let before = proof_siblings(tree, num_leaves, positions, level);
        let at = before.len() as int;
        let (above, next) = rebuilt_level(node, positions, level, known, proof, at, n - 1);
        let width = num_leaves / pow2(level) as int;
        let mine = level_siblings(tree, num_leaves, positions, level, width);
        let done = level_siblings(tree, num_leaves, positions, level, 2 * (n - 1));
        let now = level_siblings(tree, num_leaves, positions, level, 2 * n);
        let (left, right) = (2 * (n - 1), 2 * (n - 1) + 1);
        reveal_with_fuel(level_siblings, 3);
        assert(sibling(left) == right && sibling(right) == left);
        lemma_level_prefix(tree, num_leaves, positions, level, 2 * n, width);
        lemma_proof_prefix(tree, num_leaves, positions, level + 1, k);
        assert(proof_siblings(tree, num_leaves, positions, level + 1) =~= before + mine);
        lemma_parent(positions, level, n - 1);
        let start = level_start(num_leaves, level);
        assert(start == 2 * pow2(k) - 2 * pow2((k - level) as nat));
        assert(level_start(num_leaves, (level + 1) as nat) == 2 * pow2(k) - 2 * pow2(
            (k - level - 1) as nat,
        ));
        if active(positions, level, left) != active(positions, level, right) {
            let missing = if active(positions, level, left) {
                right
            } else {
                left
            };
            assert(now == done.push(tree[start + missing]));
            assert(now[done.len() as int] == tree[start + missing]);
            assert(mine[done.len() as int] == tree[start + missing]);
            assert((before + mine)[next] == tree[start + missing]);
            assert(proof[next] == tree[start + missing]);
        } else {
            assert(now == done);
        }
        assert(tree[2 * pow2(k) - 2 * pow2((k - level - 1) as nat) + (n - 1)] == node(
            tree[2 * pow2(k) - 2 * pow2((k - level) as nat) + 2 * (n - 1)],
            tree[2 * pow2(k) - 2 * pow2((k - level) as nat) + 2 * (n - 1) + 1],
        ));
    }
}

proof fn lemma_level_prefix(
    tree: Seq<Hash>,
    num_leaves: int,
    positions: Seq<usize>,
    level: nat,
    n: int,
    m: int,
)
    requires
        0 <= n <= m,
    ensures
        level_siblings(tree, num_leaves, positions, level, n).len() <= level_siblings(
            tree,
            num_leaves,
            positions,
            level,
            m,
        ).len(),
        forall|i: int|
            0 <= i < level_siblings(tree, num_leaves, positions, level, n).len()
                ==> #[trigger] level_siblings(tree, num_leaves, positions, level, n)[i]
                == level_siblings(tree, num_leaves, positions, level, m)[i],
    decreases m,
{
    if n < m {
        lemma_level_prefix(tree, num_leaves, positions, level, n, m - 1);
    }
}

proof fn lemma_rebuilt(
    node: spec_fn(Hash, Hash) -> Hash,
    tree: Seq<Hash>,
    positions: Seq<usize>,
    leaves: Seq<Hash>,
    k: nat,
    level: nat,
)
    requires
        level <= k,
        is_merkle_tree(node, tree, k),
        forall|i: int| 0 <= i < positions.len() ==> (#[trigger] positions[i]) < pow2(k),
        forall|i: int|
            0 <= i < positions.len() ==> leaves[(#[trigger] positions[i]) as int]
                == tree[positions[i] as int],
    ensures
        ({
            let num_leaves = pow2(k) as int;
            let proof = proof_siblings(tree, num_leaves, positions, k);
            let (known, at) = rebuilt(node, positions, leaves, proof, k, level);
            &&& at == proof_siblings(tree, num_leaves, positions, level).len()
            &&& forall|p: int|
                0 <= p < pow2((k - level) as nat) && active(positions, level, p)
                    ==> #[trigger] known[p] == tree[level_start(num_leaves, level) + p]
        }),
    decreases level,
{
    let num_leaves = pow2(k) as int;
    let proof = proof_siblings(tree, num_leaves, positions, k);
    if level == 0 {
        lemma2_to64();
        assert forall|p: int|
            0 <= p < pow2(k) && active(positions, 0, p) implies #[trigger] leaves[p] == tree[p] by {
            let i = choose|i: int|
                0 <= i < positions.len() && (#[trigger] positions[i]) as int / pow2(0) as int == p;
            assert(positions[i] as int / 1 == positions[i]);
        }
    } else {
        let below = (level - 1) as nat;
        lemma_rebuilt(node, tree, positions, leaves, k, below);
        let (known, at) = rebuilt(node, positions, leaves, proof, k, below);
        let n = pow2((k - level) as nat) as int;
        lemma_rebuilt_level(node, tree, positions, k, below, known, n);
        lemma_levels(k, below);
        lemma_pow2_unfold((k - below) as nat);
        assert(num_leaves / pow2(below) as int == 2 * n);
    }
}

/// A proof is what its verifier needs: from the leaves at the positions and the
/// proof alone the root of the tree is rebuilt, whatever the tree's hash is, and
/// every entry of the proof is read on the way.
pub proof fn multi_proofs_rebuild_the_root(
    node: spec_fn(Hash, Hash) -> Hash,
    tree: Seq<Hash>,
    positions: Seq<usize>,
    leaves: Seq<Hash>,
    k: nat,
)
    requires
        is_merkle_tree(node, tree, k),
        positions.len() > 0,
        forall|i: int| 0 <= i < positions.len() ==> (#[trigger] positions[i]) < pow2(k),
        forall|i: int|
            0 <= i < positions.len() ==> leaves[(#[trigger] positions[i]) as int]
                == tree[positions[i] as int],
    ensures
        ({
            let proof = proof_siblings(tree, pow2(k) as int, positions, k);
            let (top, read) = rebuilt(node, positions, leaves, proof, k, k);
            top[0] == tree.last() && read == proof.len()
        }),
{
    lemma_rebuilt(node, tree, positions, leaves, k, k);
    lemma_levels(k, k);
    lemma2_to64();
    let p = positions[0] as int;
    vstd::arithmetic::div_mod::lemma_basic_div(p, pow2(k) as int);
    assert(positions[0] as int / pow2(k) as int == 0);
    assert(active(positions, k, 0));
}

} // verus!
