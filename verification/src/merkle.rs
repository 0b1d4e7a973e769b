//! The Merkle commitment over a transaction list: a binary hash tree whose
//! root binds the whole list, with per-transaction inclusion proofs.
//!
//! Pairing is positional: each internal node hashes its left child's bytes
//! followed by its right child's, and a trailing node without a sibling is
//! paired with itself. Proof steps therefore record on which side the
//! sibling sits, and `get_proof` and `verify_proof` use that one
//! convention consistently.
use vstd::prelude::*;

use crate::hashing::{sha256, sha256_of};
use crate::transaction::{content_bytes, Transaction};

verus! {

/// The digest of an internal node: the hash of the left child's bytes
/// followed by the right child's.
pub open spec fn hash_pair_spec(left: Seq<u8>, right: Seq<u8>) -> Seq<u8> {
    sha256_of(left + right)
}

/// One level up: adjacent nodes are paired in order; a trailing node
/// without a sibling is paired with itself.
pub open spec fn pair_up(level: Seq<Seq<u8>>) -> Seq<Seq<u8>> {
    Seq::new(
        ((level.len() + 1) / 2) as nat,
        |i: int|
            if 2 * i + 1 < level.len() {
                hash_pair_spec(level[2 * i], level[2 * i + 1])
            } else {
                hash_pair_spec(level[2 * i], level[2 * i])
            },
    )
}

/// The content hashes of the transactions, in list order.
pub open spec fn leaf_hashes(txs: Seq<Transaction>) -> Seq<Seq<u8>> {
    txs.map_values(|t: Transaction| sha256_of(content_bytes(t)))
}

/// The leaf level: the content hashes, with the last one duplicated when
/// their count is odd.
pub open spec fn padded_leaves(txs: Seq<Transaction>) -> Seq<Seq<u8>> {
    let leaves = leaf_hashes(txs);
    if leaves.len() % 2 == 1 {
        leaves.push(leaves.last())
    } else {
        leaves
    }
}

/// Collapses a level to a single digest by repeated pairing; an empty
/// level collapses to the empty digest.
pub open spec fn collapse(level: Seq<Seq<u8>>) -> Seq<u8>
    decreases level.len(),
{
    if level.len() == 0 {
        Seq::empty()
    } else if level.len() == 1 {
        level[0]
    } else {
        collapse(pair_up(level))
    }
}

/// The Merkle root committed to by a transaction list.
pub open spec fn merkle_root_of(txs: Seq<Transaction>) -> Seq<u8> {
    collapse(padded_leaves(txs))
}

/// Law: the root of an empty transaction list is the fixed empty digest.
pub proof fn lemma_empty_root()
    ensures
        merkle_root_of(Seq::<Transaction>::empty()) == Seq::<u8>::empty(),
{
    assert(leaf_hashes(Seq::<Transaction>::empty()) =~= Seq::<Seq<u8>>::empty());
}

/// One step of an inclusion proof: the sibling digest at one level, and
/// whether it sits to the left of the running hash.
pub struct MerkleProofStep {
    pub sibling_on_left: bool,
    pub sibling: Vec<u8>,
}

impl View for MerkleProofStep {
    type V = (bool, Seq<u8>);

    open spec fn view(&self) -> (bool, Seq<u8>) {
        (self.sibling_on_left, self.sibling@)
    }
}

/// The mathematical content of a proof-step list.
pub open spec fn steps_view(steps: Seq<MerkleProofStep>) -> Seq<(bool, Seq<u8>)> {
    steps.map_values(|s: MerkleProofStep| s@)
}

/// Replays an inclusion proof from a leaf digest, combining with each
/// sibling on the recorded side.
pub open spec fn fold_proof(h: Seq<u8>, steps: Seq<(bool, Seq<u8>)>) -> Seq<u8>
    decreases steps.len(),
{
    if steps.len() == 0 {
        h
    } else {
        let next = if steps[0].0 {
            hash_pair_spec(steps[0].1, h)
        } else {
            hash_pair_spec(h, steps[0].1)
        };
        fold_proof(next, steps.drop_first())
    }
}

/// The proof steps for the node at index `i` of level `k`, walking up.
pub open spec fn steps_from(levels: Seq<Seq<Seq<u8>>>, k: int, i: int) -> Seq<(bool, Seq<u8>)>
    decreases levels.len() - k,
{
    if k < 0 || k >= levels.len() - 1 {
        Seq::empty()
    } else {
        let level = levels[k];
        let sib = if i % 2 == 0 {
            if i + 1 < level.len() {
                level[i + 1]
            } else {
                level[i]
            }
        } else {
            level[i - 1]
        };
        seq![(i % 2 == 1, sib)] + steps_from(levels, k + 1, i / 2)
    }
}

/// Each level above the first is the pairing of the one below, and every
/// level but the last holds at least two nodes.
pub open spec fn levels_linked(levels: Seq<Seq<Seq<u8>>>) -> bool {
    forall|k: int|
        0 <= k < levels.len() - 1 ==> {
            &&& levels[k + 1] == pair_up(#[trigger] levels[k])
            &&& levels[k].len() >= 2
        }
}

/// A well-formed tree: either empty with the empty root, or linked levels
/// narrowing to a single node that is the root.
pub open spec fn tree_wf(levels: Seq<Seq<Seq<u8>>>, root: Seq<u8>) -> bool {
    if levels.len() == 0 {
        root == Seq::<u8>::empty()
    } else {
        &&& levels_linked(levels)
        &&& levels.last().len() == 1
        &&& root == levels.last()[0]
    }
}

proof fn lemma_climb(levels: Seq<Seq<Seq<u8>>>, k: int, i: int)
    requires
        levels_linked(levels),
        0 <= k < levels.len() - 1,
        0 <= i < levels[k].len(),
    ensures
        0 <= i / 2 < levels[k + 1].len(),
        fold_proof(levels[k][i], steps_from(levels, k, i)) == fold_proof(
            levels[k + 1][i / 2],
            steps_from(levels, k + 1, i / 2),
        ),
{
    let level = levels[k];
    assert(levels[k + 1] == pair_up(level));
    assert(pair_up(level).len() == (level.len() + 1) / 2);
    let sib = if i % 2 == 0 {
        if i + 1 < level.len() {
            level[i + 1]
        } else {
            level[i]
        }
    } else {
        level[i - 1]
    };
    let step = (i % 2 == 1, sib);
    let rest = steps_from(levels, k + 1, i / 2);
    assert(steps_from(levels, k, i) == seq![step] + rest);
    let next = if step.0 {
        hash_pair_spec(step.1, level[i])
    } else {
        hash_pair_spec(level[i], step.1)
    };
    assert((seq![step] + rest)[0] == step);
    assert((seq![step] + rest).drop_first() =~= rest);
    assert(fold_proof(level[i], seq![step] + rest) == fold_proof(next, rest));
    if i % 2 == 0 {
        assert(2 * (i / 2) == i);
        if i + 1 < level.len() {
            assert(pair_up(level)[i / 2] == hash_pair_spec(level[i], level[i + 1]));
        } else {
            assert(pair_up(level)[i / 2] == hash_pair_spec(level[i], level[i]));
        }
    } else {
        assert(2 * (i / 2) == i - 1);
        assert(pair_up(level)[i / 2] == hash_pair_spec(level[i - 1], level[i]));
    }
    assert(next == levels[k + 1][i / 2]);
}

proof fn lemma_climb_to_root(levels: Seq<Seq<Seq<u8>>>, root: Seq<u8>, k: int, i: int)
    requires
        tree_wf(levels, root),
        levels.len() >= 1,
        0 <= k < levels.len(),
        0 <= i < levels[k].len(),
    ensures
        fold_proof(levels[k][i], steps_from(levels, k, i)) == root,
    decreases levels.len() - k,
{
    if k == levels.len() - 1 {
        assert(i == 0);
        assert(steps_from(levels, k, i) =~= Seq::<(bool, Seq<u8>)>::empty());
    } else {
        lemma_climb(levels, k, i);
        lemma_climb_to_root(levels, root, k + 1, i / 2);
    }
}

proof fn lemma_step_append(
    prefix: Seq<MerkleProofStep>,
    step: MerkleProofStep,
    lv: Seq<Seq<Seq<u8>>>,
    k: int,
    i: int,
    pos: int,
)
    requires
        steps_view(prefix) + steps_from(lv, k, i) == steps_from(lv, 0, pos),
        0 <= k < lv.len() - 1,
        0 <= i < lv[k].len(),
        step@.0 == (i % 2 == 1),
        step@.1 == (if i % 2 == 0 {
            if i + 1 < lv[k].len() {
                lv[k][i + 1]
            } else {
                lv[k][i]
            }
        } else {
            lv[k][i - 1]
        }),
    ensures
        steps_view(prefix.push(step)) + steps_from(lv, k + 1, i / 2) == steps_from(lv, 0, pos),
{
    let s = step@;
    assert(steps_from(lv, k, i) == seq![s] + steps_from(lv, k + 1, i / 2));
    assert(steps_view(prefix.push(step)) =~= steps_view(prefix) + seq![s]);
    assert((steps_view(prefix) + seq![s]) + steps_from(lv, k + 1, i / 2) =~= steps_view(prefix) + (
    seq![s] + steps_from(lv, k + 1, i / 2)));
}

proof fn lemma_bytes_deep_view(v: Vec<u8>)
    ensures
        v.deep_view() == v@,
{
    assert(v.deep_view() =~= v@);
}

pub struct MerkleTree {
    pub root: Vec<u8>,
    pub levels: Vec<Vec<Vec<u8>>>,
}

impl MerkleTree {
    /// The levels of the tree, leaf level first.
    pub open spec fn levels_view(&self) -> Seq<Seq<Seq<u8>>> {
        self.levels.deep_view()
    }

    /// The leaf level (padded content hashes), empty for an empty tree.
    pub open spec fn leaf_level(&self) -> Seq<Seq<u8>> {
        if self.levels_view().len() == 0 {
            Seq::empty()
        } else {
            self.levels_view()[0]
        }
    }

    pub open spec fn wf(&self) -> bool {
        tree_wf(self.levels_view(), self.root@)
    }

    /// Law: in a well-formed tree, the steps collected for any leaf replay
    /// to the root.
    pub proof fn lemma_proof_roundtrip(&self, i: int)
        requires
            self.wf(),
            0 <= i < self.leaf_level().len(),
        ensures
            fold_proof(self.leaf_level()[i], steps_from(self.levels_view(), 0, i))
                == self.root@,
    {
        lemma_climb_to_root(self.levels_view(), self.root@, 0, i);
    }

    /// Builds the tree over the transactions' content hashes, with the
    /// pad-by-duplication rule for an odd leaf count.
    #[verifier::rlimit(100)]
    pub fn new(transactions: &Vec<Transaction>) -> (t: MerkleTree)
        requires
            transactions@.len() < usize::MAX - 1,
        ensures
            t.wf(),
            t.root@ == merkle_root_of(transactions@),
            t.leaf_level() == padded_leaves(transactions@),
    {
        let ghost leaves = leaf_hashes(transactions@);
        let mut nodes: Vec<Vec<u8>> = Vec::new();
        let mut idx: usize = 0;
        while idx < transactions.len()
            invariant
                0 <= idx <= transactions@.len(),
                transactions@.len() < usize::MAX - 1,
                leaves == leaf_hashes(transactions@),
                nodes.deep_view() == leaves.take(idx as int),
                nodes@.len() == idx,
            decreases transactions@.len() - idx,
        {
            let h = transactions[idx].calculate_hash();
            proof {
                lemma_bytes_deep_view(h);
            }
            let ghost old_dv = nodes.deep_view();
            nodes.push(h);
            proof {
                assert(nodes.deep_view() =~= old_dv.push(h@));
                assert(leaves.take(idx as int + 1) =~= leaves.take(idx as int).push(
                    leaves[idx as int],
                ));
            }
            idx = idx + 1;
        }
        proof {
            assert(leaves.take(transactions@.len() as int) =~= leaves);
        }
        if nodes.len() % 2 != 0 {
            let ghost old_dv = nodes.deep_view();
            let last = clone_bytes(&nodes[nodes.len() - 1]);
            proof {
                lemma_bytes_deep_view(last);
                lemma_bytes_deep_view(nodes@[nodes@.len() - 1]);
                assert(last@ == old_dv.last());
            }
            nodes.push(last);
            proof {
                assert(nodes.deep_view() =~= old_dv.push(old_dv.last()));
                assert(nodes.deep_view() == padded_leaves(transactions@));
            }
        } else {
            proof {
                assert(nodes.deep_view() == padded_leaves(transactions@));
            }
        }
        if nodes.len() == 0 {
            let t = MerkleTree { root: Vec::new(), levels: Vec::new() };
            proof {
                assert(t.levels_view() =~~= Seq::<Seq<Seq<u8>>>::empty());
                assert(padded_leaves(transactions@).len() == 0);
            }
            return t;
        }
        let mut levels: Vec<Vec<Vec<u8>>> = Vec::new();
        levels.push(nodes);
        while levels[levels.len() - 1].len() > 1
            invariant
                levels@.len() >= 1,
                levels_linked(levels.deep_view()),
                levels.deep_view()[0] == padded_leaves(transactions@),
                levels.deep_view().last().len() >= 1,
                levels.deep_view().last().len() < usize::MAX,
                collapse(levels.deep_view().last()) == merkle_root_of(transactions@),
                forall|k: int|
                    0 <= k < levels.deep_view().len() - 1 ==> #[trigger] levels.deep_view()[k].len()
                        >= 2,
            decreases levels.deep_view().last().len(),
        {
            let ghost prev_levels = levels.deep_view();
            let last_idx = levels.len() - 1;
            proof {
                assert(prev_levels[last_idx as int] == levels@[last_idx as int].deep_view());
            }
            let next = pair_level(&levels[last_idx]);
            let ghost next_v = next.deep_view();
            levels.push(next);
            proof {
                let lv = levels.deep_view();
                assert(lv =~= prev_levels.push(next_v));
                assert(next_v == pair_up(prev_levels.last()));
                assert(prev_levels.last().len() >= 2);
                assert forall|k: int| 0 <= k < lv.len() - 1 implies {
                    &&& lv[k + 1] == pair_up(#[trigger] lv[k])
                    &&& lv[k].len() >= 2
                } by {
                    if k < prev_levels.len() - 1 {
                        assert(prev_levels[k + 1] == pair_up(prev_levels[k]));
                        assert(lv[k] == prev_levels[k]);
                        assert(lv[k + 1] == prev_levels[k + 1]);
                    } else {
                        assert(lv[k] == prev_levels.last());
                        assert(lv[k + 1] == next_v);
                    }
                }
                assert(collapse(prev_levels.last()) == collapse(pair_up(prev_levels.last())));
                assert(lv.last() == next_v);
                assert(next_v.len() == (prev_levels.last().len() + 1) / 2);
                assert(lv[0] == prev_levels[0]);
            }
        }
        proof {
            let lv = levels.deep_view();
            assert(lv.last() == levels@[levels@.len() - 1].deep_view());
            lemma_bytes_deep_view(levels@[levels@.len() - 1]@[0]);
            assert(lv.last()[0] == levels@[levels@.len() - 1]@[0]@);
        }
        let root = clone_bytes(&levels[levels.len() - 1][0]);
        let t = MerkleTree { root, levels };
        proof {
            let lv = t.levels_view();
            assert(lv.last().len() == 1);
            assert(collapse(lv.last()) == lv.last()[0]);
        }
        t
    }

    /// Pairs adjacent nodes of a level and hashes each pair, consuming
    /// the level, as the tree construction does internally.
    pub fn pair_and_hash(nodes: Vec<Vec<u8>>) -> (r: Vec<Vec<u8>>)
        requires
            nodes@.len() < usize::MAX,
        ensures
            r.deep_view() == pair_up(nodes.deep_view()),
    {
        pair_level(&nodes)
    }

    /// The inclusion proof for `transaction`, if its content hash is a
    /// leaf of this tree: one sibling per level, walking from the first
    /// matching leaf up to the root. The steps replay to the root.
    #[verifier::rlimit(100)]
    pub fn get_proof(&self, transaction: &Transaction) -> (r: Option<Vec<MerkleProofStep>>)
        requires
            self.wf(),
        ensures
            r is Some <==> exists|j: int|
                0 <= j < self.leaf_level().len() && self.leaf_level()[j] == sha256_of(
                    content_bytes(*transaction),
                ),
            r is Some ==> fold_proof(sha256_of(content_bytes(*transaction)), steps_view(r->0@))
                == self.root@,
    {
        let tx_hash = transaction.calculate_hash();
        if self.levels.len() == 0 {
            return None;
        }
        let ghost lv = self.levels_view();
        let leaf_count = self.levels[0].len();
        let mut pos: usize = 0;
        let mut found = false;
        while pos < leaf_count && !found
            invariant
                0 <= pos <= leaf_count,
                lv == self.levels_view(),
                lv.len() >= 1,
                leaf_count == lv[0].len(),
                tx_hash@ == sha256_of(content_bytes(*transaction)),
                !found ==> forall|j: int| 0 <= j < pos ==> lv[0][j] != tx_hash@,
                found ==> pos < leaf_count && lv[0][pos as int] == tx_hash@,
            decreases leaf_count - pos + (if found { 0int } else { 1int }),
        {
            proof {
                assert(lv[0] == self.levels@[0].deep_view());
                lemma_bytes_deep_view(self.levels@[0]@[pos as int]);
                assert(lv[0][pos as int] == self.levels@[0]@[pos as int]@);
            }
            if bytes_eq(&self.levels[0][pos], &tx_hash) {
                found = true;
            } else {
                pos = pos + 1;
            }
        }
        if !found {
            proof {
                assert(self.leaf_level() == lv[0]);
                assert(forall|j: int|
                    0 <= j < self.leaf_level().len() ==> self.leaf_level()[j] != sha256_of(
                        content_bytes(*transaction),
                    ));
            }
            return None;
        }
        proof {
            assert(self.leaf_level() == lv[0]);
            assert(0 <= (pos as int) < self.leaf_level().len());
            assert(self.leaf_level()[pos as int] == sha256_of(content_bytes(*transaction)));
        }
        let mut steps: Vec<MerkleProofStep> = Vec::new();
        let mut k: usize = 0;
        let mut i: usize = pos;
        proof {
            assert(steps_view(steps@) =~= Seq::<(bool, Seq<u8>)>::empty());
            assert(Seq::<(bool, Seq<u8>)>::empty() + steps_from(lv, 0, pos as int) =~= steps_from(
                lv,
                0,
                pos as int,
            ));
        }
        while k < self.levels.len() - 1
            invariant
                lv == self.levels_view(),
                tree_wf(lv, self.root@),
                lv.len() >= 1,
                0 <= k < lv.len(),
                0 <= i < lv[k as int].len(),
                steps_view(steps@) + steps_from(lv, k as int, i as int) == steps_from(
                    lv,
                    0,
                    pos as int,
                ),
                0 <= pos < lv[0].len(),
                lv[0][pos as int] == tx_hash@,
            decreases lv.len() - k,
        {
            proof {
                lemma_climb(lv, k as int, i as int);
            }
            let level = &self.levels[k];
            proof {
                assert(lv[k as int] == self.levels@[k as int].deep_view());
                assert(level@.len() == lv[k as int].len());
            }
            let sibling: Vec<u8> = if i % 2 == 0 {
                if i + 1 < level.len() {
                    proof {
                        lemma_bytes_deep_view(level@[i as int + 1]);
                        assert(lv[k as int][i as int + 1] == level@[i as int + 1]@);
                    }
                    clone_bytes(&level[i + 1])
                } else {
                    proof {
                        lemma_bytes_deep_view(level@[i as int]);
                        assert(lv[k as int][i as int] == level@[i as int]@);
                    }
                    clone_bytes(&level[i])
                }
            } else {
                proof {
                    lemma_bytes_deep_view(level@[i as int - 1]);
                    assert(lv[k as int][i as int - 1] == level@[i as int - 1]@);
                }
                clone_bytes(&level[i - 1])
            };
            let step = MerkleProofStep { sibling_on_left: i % 2 == 1, sibling };
            proof {
                lemma_step_append(steps@, step, lv, k as int, i as int, pos as int);
            }
            steps.push(step);
            i = i / 2;
            k = k + 1;
        }
        proof {
            assert(steps_from(lv, k as int, i as int) =~= Seq::<(bool, Seq<u8>)>::empty());
            assert(steps_view(steps@) + Seq::<(bool, Seq<u8>)>::empty() =~= steps_view(steps@));
            lemma_climb_to_root(lv, self.root@, 0, pos as int);
        }
        Some(steps)
    }

    /// Replays `proof` from the transaction's content hash and compares
    /// the result with `root`, exactly as `fold_proof` states it.
    pub fn verify_proof(root: &Vec<u8>, transaction: &Transaction, proof: &Vec<MerkleProofStep>)
        -> (r: bool)
        ensures
            r == (fold_proof(sha256_of(content_bytes(*transaction)), steps_view(proof@))
                == root@),
    {
        let mut h = transaction.calculate_hash();
        proof {
            assert(proof@.skip(0) =~= proof@);
            assert(steps_view(proof@.skip(0)) =~= steps_view(proof@));
        }
        let mut j: usize = 0;
        while j < proof.len()
            invariant
                0 <= j <= proof@.len(),
                fold_proof(sha256_of(content_bytes(*transaction)), steps_view(proof@))
                    == fold_proof(h@, steps_view(proof@.skip(j as int))),
            decreases proof@.len() - j,
        {
            let ghost pending = steps_view(proof@.skip(j as int));
            let ghost h_prev = h@;
            let step = &proof[j];
            let next = if step.sibling_on_left {
                hash_pair(&step.sibling, &h)
            } else {
                hash_pair(&h, &step.sibling)
            };
            h = next;
            proof {
                assert(pending[0] == proof@[j as int]@);
                assert(pending.drop_first() =~= steps_view(proof@.skip(j as int + 1)));
                assert(fold_proof(h_prev, pending) == fold_proof(h@, pending.drop_first()));
            }
            j = j + 1;
        }
        proof {
            assert(steps_view(proof@.skip(proof@.len() as int)) =~= Seq::<(bool, Seq<u8>)>::empty());
        }
        bytes_eq(&h, root)
    }
}

/// Pairs and hashes one level, as `pair_up` states it.
fn pair_level(nodes: &Vec<Vec<u8>>) -> (r: Vec<Vec<u8>>)
    requires
        nodes@.len() < usize::MAX,
    ensures
        r.deep_view() == pair_up(nodes.deep_view()),
{
    let mut out: Vec<Vec<u8>> = Vec::new();
    let mut i: usize = 0;
    while i < nodes.len()
        invariant
            nodes@.len() < usize::MAX,
            i % 2 == 0,
            0 <= i <= nodes@.len() + 1,
            out.deep_view() == pair_up(nodes.deep_view()).take(((i + 1) / 2) as int),
            out@.len() == (i + 1) / 2,
        decreases nodes@.len() + 1 - i,
    {
        proof {
            lemma_bytes_deep_view(nodes@[i as int]);
            assert(nodes.deep_view()[i as int] == nodes@[i as int]@);
            if i as int + 1 < nodes@.len() {
                lemma_bytes_deep_view(nodes@[i as int + 1]);
                assert(nodes.deep_view()[i as int + 1] == nodes@[i as int + 1]@);
            }
        }
        let h = if i + 1 < nodes.len() {
            hash_pair(&nodes[i], &nodes[i + 1])
        } else {
            hash_pair(&nodes[i], &nodes[i])
        };
        proof {
            lemma_bytes_deep_view(h);
        }
        let ghost old_out = out.deep_view();
        out.push(h);
        proof {
            let dv = nodes.deep_view();
            let full = pair_up(dv);
            assert(2 * ((i as int) / 2) == i as int);
            assert(full[(i / 2) as int] == h@);
            assert(out.deep_view() =~= old_out.push(h@));
            assert(full.take((i / 2 + 1) as int) =~= full.take((i / 2) as int).push(
                full[(i / 2) as int],
            ));
            assert(out@.len() == i / 2 + 1);
        }
        i = i + 2;
    }
    proof {
        assert(pair_up(nodes.deep_view()).take(((i + 1) / 2) as int) =~= pair_up(
            nodes.deep_view(),
        ));
    }
    out
}

/// Hashes the concatenation of two digests, as `hash_pair_spec` states it.
fn hash_pair(left: &Vec<u8>, right: &Vec<u8>) -> (h: Vec<u8>)
    ensures
        h@ == hash_pair_spec(left@, right@),
        h@.len() == 32,
{
    let mut data: Vec<u8> = Vec::new();
    data.extend_from_slice(left.as_slice());
    data.extend_from_slice(right.as_slice());
    proof {
        assert(data@ =~= left@ + right@);
    }
    sha256(data.as_slice())
}

/// A byte-for-byte copy.
pub fn clone_bytes(v: &Vec<u8>) -> (r: Vec<u8>)
    ensures
        r@ == v@,
{
    let mut out: Vec<u8> = Vec::new();
    out.extend_from_slice(v.as_slice());
    proof {
        assert(out@ =~= v@);
    }
    out
}

/// Whether two byte vectors hold the same bytes.
pub fn bytes_eq(a: &Vec<u8>, b: &Vec<u8>) -> (r: bool)
    ensures
        r == (a@ == b@),
{
    if a.len() != b.len() {
        proof {
            assert(a@ != b@);
        }
        return false;
    }
    let mut i: usize = 0;
    while i < a.len()
        invariant
            a@.len() == b@.len(),
            0 <= i <= a@.len(),
            forall|j: int| 0 <= j < i ==> a@[j] == b@[j],
        decreases a@.len() - i,
    {
        if a[i] != b[i] {
            proof {
                assert(a@ != b@);
            }
            return false;
        }
        i = i + 1;
    }
    proof {
        assert(a@ =~= b@);
    }
    true
}

} // verus!
