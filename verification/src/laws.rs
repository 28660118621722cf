use vstd::prelude::*;
use crate::model::{lemma_resolve_frame, lemma_resolve_shrink, on_key_path, resolve};
use crate::node::child_of;
use crate::{
    inserted, key_match, lemma_same_nodes_same_dump, masked_path, remasked, removed, BinaryTrie,
};

verus! {

/// Counting with the full key width and asking for the exact multiplicity
/// are the same question.
pub proof fn lemma_count_is_full_prefix(t: BinaryTrie, x: usize)
    ensures
        t.spec_count(x) == t.spec_count_prefix(x, t.spec_bits()),
{
}

/// Folding the same mask in twice restores every query result: XOR is
/// self-inverse, so the second fold cancels the first.
pub proof fn lemma_xor_mask_self_inverse(t0: BinaryTrie, t1: BinaryTrie, t2: BinaryTrie, m: usize)
    requires
        remasked(t0, t1, m),
        remasked(t1, t2, m),
    ensures
        t2.spec_bits() == t0.spec_bits(),
        t2.spec_mask() == t0.spec_mask(),
        t2.spec_nodes() == t0.spec_nodes(),
        t2.spec_dump() == t0.spec_dump(),
        forall|y: usize, k: nat|
            k <= t0.spec_bits() ==> #[trigger] t2.spec_count_prefix(y, k)
                == t0.spec_count_prefix(y, k),
{
    lemma_same_nodes_same_dump(t0, t2);
    let m0 = t0.spec_mask();
    assert((m0 ^ m) ^ m == m0) by (bit_vector);
    assert forall|y: usize, k: nat| k <= t0.spec_bits() implies #[trigger] t2.spec_count_prefix(
        y,
        k,
    ) == t0.spec_count_prefix(y, k) by {
        assert(t2.spec_count_prefix(y, k) == t1.spec_count_prefix(y ^ m, k));
        assert(t1.spec_count_prefix(y ^ m, k) == t0.spec_count_prefix((y ^ m) ^ m, k));
        assert((y ^ m) ^ m == y) by (bit_vector);
    }
}

/// Inserting a value and immediately removing it restores every query
/// result and every original node's count at its index; the nodes the
/// insertion created stay in the pool with count zero, none are deleted or
/// relinked, and none were added beyond what the insertion created.
pub proof fn lemma_insert_then_remove(t0: BinaryTrie, t1: BinaryTrie, t2: BinaryTrie, x: usize)
    requires
        t0.wf(),
        inserted(t0, t1, x),
        removed(t1, t2, x),
    ensures
        t2.spec_bits() == t0.spec_bits(),
        t2.spec_mask() == t0.spec_mask(),
        t2.spec_num_nodes() == t1.spec_num_nodes(),
        forall|y: usize, k: nat|
            k <= t0.spec_bits() ==> #[trigger] t2.spec_count_prefix(y, k)
                == t0.spec_count_prefix(y, k),
        forall|j: int, b: bool|
            0 <= j < t1.spec_num_nodes() ==> #[trigger] child_of(t2.spec_nodes()[j], b)
                == child_of(t1.spec_nodes()[j], b),
        forall|j: int|
            0 <= j < t0.spec_num_nodes() ==> (#[trigger] t2.spec_nodes()[j]).count
                == t0.spec_nodes()[j].count,
        forall|j: int|
            t0.spec_num_nodes() <= j < t1.spec_num_nodes() ==> (#[trigger] t2.spec_nodes()[j]).count
                == 0,
{
    let width = t0.spec_bits();
    assert(t1.spec_count_prefix(x, width) == t0.spec_count_prefix(x, width) + 1);
    assert(t1.spec_count(x) > 0);
    assert forall|y: usize, k: nat| k <= t0.spec_bits() implies #[trigger] t2.spec_count_prefix(
        y,
        k,
    ) == t0.spec_count_prefix(y, k) by {
        assert(t1.spec_count_prefix(y, k) == t0.spec_count_prefix(y, k) + (
        if key_match(x, y, t0.spec_mask(), width, k) {
            1nat
        } else {
            0nat
        }));
        assert(t1.spec_count_prefix(y, k) == t2.spec_count_prefix(y, k) + (
        if key_match(x, y, t0.spec_mask(), width, k) {
            1nat
        } else {
            0nat
        }));
    }
    let fp = masked_path(t0, x);
    assert(masked_path(t1, x) == fp);
    // an original node lies on the key's path in the grown pool exactly
    // when it did in the original pool
    assert forall|j: int| 0 <= j < t0.spec_num_nodes() implies on_key_path(
        t1.spec_nodes(),
        fp,
        width,
        j,
    ) == on_key_path(t0.spec_nodes(), fp, width, j) by {
        if on_key_path(t0.spec_nodes(), fp, width, j) {
            let k = choose|k: int|
                0 <= k <= width && #[trigger] resolve(t0.spec_nodes(), fp.take(k)) == Some(j);
            lemma_resolve_frame(t0.spec_nodes(), t1.spec_nodes(), fp.take(k));
            assert(resolve(t1.spec_nodes(), fp.take(k)) == Some(j));
            assert(on_key_path(t1.spec_nodes(), fp, width, j));
        }
        if on_key_path(t1.spec_nodes(), fp, width, j) && !on_key_path(
            t0.spec_nodes(),
            fp,
            width,
            j,
        ) {
            let k = choose|k: int|
                0 <= k <= width && #[trigger] resolve(t1.spec_nodes(), fp.take(k)) == Some(j);
            lemma_resolve_shrink(t0.spec_nodes(), t1.spec_nodes(), fp.take(k), j);
            assert(false);
        }
    }
    assert forall|j: int| 0 <= j < t0.spec_num_nodes() implies (#[trigger] t2.spec_nodes()[j]).count
        == t0.spec_nodes()[j].count by {
        assert(t1.spec_nodes()[j].count == t0.spec_nodes()[j].count + (
        if on_key_path(t0.spec_nodes(), fp, width, j) {
            1nat
        } else {
            0nat
        }));
        assert(t2.spec_nodes()[j].count + (
        if on_key_path(t1.spec_nodes(), fp, width, j) {
            1nat
        } else {
            0nat
        }) == t1.spec_nodes()[j].count);
    }
    assert forall|j: int|
        t0.spec_num_nodes() <= j < t1.spec_num_nodes() implies (#[trigger] t2.spec_nodes()[j]).count
        == 0 by {
        assert(t1.spec_nodes()[j].count == 1 && on_key_path(t1.spec_nodes(), fp, width, j));
        assert(t2.spec_nodes()[j].count + 1nat == t1.spec_nodes()[j].count);
    }
}

/// One recorded operation against the trie.
pub enum TrieOp {
    Insert(usize),
    Remove(usize),
}

/// One step of a history: the states before and after are related by the
/// contract of the operation taken between them.
pub open spec fn step_ok(pre: BinaryTrie, post: BinaryTrie, op: TrieOp) -> bool {
    match op {
        TrieOp::Insert(x) => inserted(pre, post, x),
        TrieOp::Remove(x) => removed(pre, post, x),
    }
}

/// A history: one more state than operations, a well-formed start, and
/// consecutive states related by the operation between them.
pub open spec fn history_ok(states: Seq<BinaryTrie>, ops: Seq<TrieOp>) -> bool {
    &&& states.len() == ops.len() + 1
    &&& states[0].wf()
    &&& forall|i: int| 0 <= i < ops.len() ==> #[trigger] step_ok(states[i], states[i + 1], ops[i])
}

/// What one operation contributes to the count of the first `k` bits of
/// `y`: an insertion whose key agrees with `y` on those masked bits adds
/// one, a removal of a then-present value that agrees takes one away, and
/// everything else contributes nothing.
pub open spec fn op_delta(pre: BinaryTrie, op: TrieOp, y: usize, k: nat) -> int {
    match op {
        TrieOp::Insert(x) => if key_match(x, y, pre.spec_mask(), pre.spec_bits(), k) {
            1int
        } else {
            0int
        },
        TrieOp::Remove(x) => if pre.spec_count(x) > 0 && key_match(
            x,
            y,
            pre.spec_mask(),
            pre.spec_bits(),
            k,
        ) {
            -1int
        } else {
            0int
        },
    }
}

/// The net contribution of a history's operations to the count of the
/// first `k` bits of `y`.
pub open spec fn net_delta(states: Seq<BinaryTrie>, ops: Seq<TrieOp>, y: usize, k: nat) -> int
    decreases ops.len(),
{
    if ops.len() == 0 {
        0
    } else {
        net_delta(states.drop_last(), ops.drop_last(), y, k) + op_delta(
            states[ops.len() - 1],
            ops.last(),
            y,
            k,
        )
    }
}

/// Counts track history: after any sequence of insertions and removals,
/// every prefix count equals its starting value plus the matching net
/// insertions (insertions of agreeing keys minus removals of then-present
/// agreeing keys). With zero prefix bits every key agrees, so the root
/// count is the total number of net insertions across all keys; with the
/// full width it is the exact multiplicity of `y`.
pub proof fn lemma_history_net_count(states: Seq<BinaryTrie>, ops: Seq<TrieOp>, y: usize, k: nat)
    requires
        history_ok(states, ops),
        k <= states[0].spec_bits(),
    ensures
        states.last().wf(),
        states.last().spec_bits() == states[0].spec_bits(),
        states.last().spec_mask() == states[0].spec_mask(),
        states.last().spec_count_prefix(y, k) == states[0].spec_count_prefix(y, k) + net_delta(
            states,
            ops,
            y,
            k,
        ),
    decreases ops.len(),
{
    if ops.len() == 0 {
        assert(states.last() == states[0]);
    } else {
        let n = ops.len() as int;
        let prefix_states = states.drop_last();
        let prefix_ops = ops.drop_last();
        assert(history_ok(prefix_states, prefix_ops)) by {
            assert(prefix_states[0] == states[0]);
            assert forall|i: int| 0 <= i < prefix_ops.len() implies #[trigger] step_ok(
                prefix_states[i],
                prefix_states[i + 1],
                prefix_ops[i],
            ) by {
                assert(step_ok(states[i], states[i + 1], ops[i]));
            }
        }
        lemma_history_net_count(prefix_states, prefix_ops, y, k);
        let pre = states[n - 1];
        let post = states[n];
        assert(step_ok(pre, post, ops[n - 1]));
        assert(prefix_states.last() == pre);
        assert(states.last() == post);
        assert(ops.last() == ops[n - 1]);
        match ops[n - 1] {
            TrieOp::Insert(x) => {
                assert(inserted(pre, post, x));
                assert(post.spec_count_prefix(y, k) == pre.spec_count_prefix(y, k) + (
                if key_match(x, y, pre.spec_mask(), pre.spec_bits(), k) {
                    1nat
                } else {
                    0nat
                }));
            },
            TrieOp::Remove(x) => {
                assert(removed(pre, post, x));
                if pre.spec_count(x) == 0 {
                    assert(post == pre);
                } else {
                    assert(pre.spec_count_prefix(y, k) == post.spec_count_prefix(y, k) + (
                    if key_match(x, y, pre.spec_mask(), pre.spec_bits(), k) {
                        1nat
                    } else {
                        0nat
                    }));
                }
            },
        }
    }
}

} // verus!
