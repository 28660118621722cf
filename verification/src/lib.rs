use vstd::prelude::*;

pub mod laws;
pub mod model;
pub mod node;

use crate::model::{
    bit_of, child_count, count_shifted, counts_ok, debt_ok, insert_inv, key_path,
    lemma_count_le_root, lemma_insert_finish, lemma_insert_query, lemma_insert_step_follow,
    lemma_insert_step_fresh, lemma_resolve_none_extend, lemma_resolve_root_only,
    links_ok, on_walked, orig_count, paths_ok, query_count, resolve,
    count_dropped, drop_debt_ok, lemma_remove_query, lemma_remove_step, remove_inv,
    lemma_missing_le, lemma_on_path_correspondence, lemma_remove_inv_start,
    lemma_resolve_gives_path, missing_on_path, on_key_path,
    dec_str, digit_char, dump_at, spaces,
};
use vstd::string::StringExecFns;
use crate::node::{child_of, Node};

verus! {

/// A fixed-width binary trie over the most significant `bits` bits of each
/// key. It stores a multiset of values as counts along root-to-leaf paths of
/// a growable node pool, and answers prefix-count queries. Every key is
/// transformed by `key XOR xor` before traversal, so changing the mask
/// reinterprets the stored structure without rewriting it.
pub struct BinaryTrie {
    xor: usize,
    bits: u32,
    /// pool[0]: root
    pool: Vec<Node>,
    /// Ghost bookkeeping: the root path that owns each pool index.
    paths: Ghost<Map<int, Seq<bool>>>,
}

impl BinaryTrie {
    /// The key width fixed at construction.
    pub closed spec fn spec_bits(&self) -> nat {
        self.bits as nat
    }

    /// The current global XOR mask.
    pub closed spec fn spec_mask(&self) -> usize {
        self.xor
    }

    /// The node pool itself: index 0 is the root, and an index never moves
    /// or disappears once created.
    pub closed spec fn spec_nodes(&self) -> Seq<Node> {
        self.pool@
    }

    /// How many nodes the pool holds (the pool only ever grows).
    pub open spec fn spec_num_nodes(&self) -> nat {
        self.spec_nodes().len()
    }

    /// Structural well-formedness: the pool is a rooted binary tree with
    /// forward links, each node owns exactly one root path of length at most
    /// `bits`, and every inner count is the sum of its children's counts.
    pub closed spec fn wf(&self) -> bool {
        &&& self.pool@.len() >= 1
        &&& 1 <= self.bits <= usize::BITS
        &&& links_ok(self.pool@)
        &&& paths_ok(self.pool@, self.paths@, self.bits as nat)
        &&& counts_ok(self.pool@, self.paths@, self.bits as nat)
    }

    /// The number of stored values whose first `k` bits (after the XOR
    /// transform) equal the first `k` bits of `x ^ mask`: the count at the
    /// node reached by walking those bits, or zero where the walk falls off
    /// the tree.
    pub closed spec fn spec_count_prefix(&self, x: usize, k: nat) -> nat {
        match resolve(self.pool@, key_path(x ^ self.xor, self.bits as nat, k)) {
            Some(n) => if 0 <= n < self.pool@.len() {
                self.pool@[n].count as nat
            } else {
                0
            },
            None => 0,
        }
    }

    /// The exact multiplicity of `x` (after the XOR transform).
    pub open spec fn spec_count(&self, x: usize) -> nat {
        self.spec_count_prefix(x, self.spec_bits())
    }

    /// The total number of stored values: the root's count.
    pub open spec fn spec_total(&self) -> nat {
        self.spec_count_prefix(0, 0)
    }
}

/// Appends the decimal rendering of `n` to `out`.
fn push_dec(out: &mut String, n: usize)
    ensures
        final(out)@ == old(out)@ + dec_str(n as nat),
    decreases n,
{
    let ghost pre = out@;
    if n >= 10 {
        push_dec(out, n / 10);
    }
    let ghost mid = out@;
    let d: usize = n % 10;
    if d == 0 {
        out.append("0");
        proof {
            reveal_strlit("0");
        }
    } else if d == 1 {
        out.append("1");
        proof {
            reveal_strlit("1");
        }
    } else if d == 2 {
        out.append("2");
        proof {
            reveal_strlit("2");
        }
    } else if d == 3 {
        out.append("3");
        proof {
            reveal_strlit("3");
        }
    } else if d == 4 {
        out.append("4");
        proof {
            reveal_strlit("4");
        }
    } else if d == 5 {
        out.append("5");
        proof {
            reveal_strlit("5");
        }
    } else if d == 6 {
        out.append("6");
        proof {
            reveal_strlit("6");
        }
    } else if d == 7 {
        out.append("7");
        proof {
            reveal_strlit("7");
        }
    } else if d == 8 {
        out.append("8");
        proof {
            reveal_strlit("8");
        }
    } else {
        out.append("9");
        proof {
            reveal_strlit("9");
        }
    }
    proof {
        assert(out@ =~= mid + seq![digit_char(d as nat)]);
        if n < 10 {
            assert(out@ =~= pre + dec_str(n as nat));
        } else {
            assert(mid == pre + dec_str((n / 10) as nat));
            assert(dec_str(n as nat) == dec_str((n / 10) as nat).push(digit_char((n % 10) as nat)));
            assert(out@ =~= pre + dec_str(n as nat));
        }
    }
}

/// The root-to-leaf path the trie walks for key `x` under its current
/// mask: the transformed key's `bits` bits, most significant first.
pub open spec fn masked_path(t: BinaryTrie, x: usize) -> Seq<bool> {
    key_path(x ^ t.spec_mask(), t.spec_bits(), t.spec_bits())
}

/// `x` and `y` agree on their first `k` bits after masking with `m`, inside
/// a window of `width` bits.
pub open spec fn key_match(x: usize, y: usize, m: usize, width: nat, k: nat) -> bool {
    key_path(x ^ m, width, k) == key_path(y ^ m, width, k)
}

/// How one insertion of `x` changes a trie: the width and mask stay; one
/// node is created for exactly each child slot absent along the key's
/// path, appended after the existing nodes, so every pre-existing node
/// keeps its index; no existing link is ever rewritten and every new link
/// names a new index; exactly the nodes on the key's path gain one count
/// (the new nodes all sit on it, with count one); and every prefix count
/// rises by one exactly for the prefixes of `x`'s transformed key.
pub open spec fn inserted(pre: BinaryTrie, post: BinaryTrie, x: usize) -> bool {
    &&& post.wf()
    &&& post.spec_bits() == pre.spec_bits()
    &&& post.spec_mask() == pre.spec_mask()
    &&& post.spec_num_nodes() == pre.spec_num_nodes() + missing_on_path(
        pre.spec_nodes(),
        masked_path(pre, x),
        pre.spec_bits(),
    )
    &&& post.spec_num_nodes() <= pre.spec_num_nodes() + pre.spec_bits()
    &&& (forall|j: int, b: bool|
        0 <= j < pre.spec_num_nodes() && (#[trigger] child_of(pre.spec_nodes()[j], b)) is Some
            ==> child_of(post.spec_nodes()[j], b) == child_of(pre.spec_nodes()[j], b))
    &&& (forall|j: int, b: bool|
        0 <= j < pre.spec_num_nodes() && child_of(pre.spec_nodes()[j], b) is None && (
        #[trigger] child_of(post.spec_nodes()[j], b)) is Some ==> child_of(
            post.spec_nodes()[j],
            b,
        ).unwrap() >= pre.spec_num_nodes())
    &&& (forall|j: int, b: bool|
        pre.spec_num_nodes() <= j < post.spec_num_nodes() && (#[trigger] child_of(
            post.spec_nodes()[j],
            b,
        )) is Some ==> child_of(post.spec_nodes()[j], b).unwrap() >= pre.spec_num_nodes())
    &&& (forall|j: int|
        0 <= j < pre.spec_num_nodes() ==> (#[trigger] post.spec_nodes()[j]).count
            == pre.spec_nodes()[j].count + (
        if on_key_path(pre.spec_nodes(), masked_path(pre, x), pre.spec_bits(), j) {
            1nat
        } else {
            0nat
        }))
    &&& (forall|j: int|
        pre.spec_num_nodes() <= j < post.spec_num_nodes()
            ==> (#[trigger] post.spec_nodes()[j]).count == 1 && on_key_path(
            post.spec_nodes(),
            masked_path(pre, x),
            pre.spec_bits(),
            j,
        ))
    &&& forall|y: usize, k: nat|
        k <= pre.spec_bits()
            ==> #[trigger] post.spec_count_prefix(y, k) == pre.spec_count_prefix(y, k) + (
            if key_match(x, y, pre.spec_mask(), pre.spec_bits(), k) {
                1nat
            } else {
                0nat
            })
}

/// How one removal of `x` changes a trie: a value that is not present
/// leaves the trie untouched; otherwise no node is created, deleted or
/// relinked, exactly the nodes on the key's path lose one count, and every
/// prefix count drops by one exactly for the prefixes of `x`'s transformed
/// key.
pub open spec fn removed(pre: BinaryTrie, post: BinaryTrie, x: usize) -> bool {
    &&& post.wf()
    &&& post.spec_bits() == pre.spec_bits()
    &&& post.spec_mask() == pre.spec_mask()
    &&& post.spec_num_nodes() == pre.spec_num_nodes()
    &&& (forall|j: int, b: bool|
        0 <= j < pre.spec_num_nodes() ==> #[trigger] child_of(post.spec_nodes()[j], b)
            == child_of(pre.spec_nodes()[j], b))
    &&& (pre.spec_count(x) == 0 ==> post == pre)
    &&& (pre.spec_count(x) > 0 ==> forall|j: int|
        0 <= j < pre.spec_num_nodes() ==> (#[trigger] post.spec_nodes()[j]).count + (
        if on_key_path(pre.spec_nodes(), masked_path(pre, x), pre.spec_bits(), j) {
            1nat
        } else {
            0nat
        }) == pre.spec_nodes()[j].count)
    &&& (pre.spec_count(x) > 0 ==> forall|y: usize, k: nat|
        k <= pre.spec_bits()
            ==> #[trigger] pre.spec_count_prefix(y, k) == post.spec_count_prefix(y, k) + (
            if key_match(x, y, pre.spec_mask(), pre.spec_bits(), k) {
                1nat
            } else {
                0nat
            }))
}

/// How folding `m` into the mask changes a trie: the stored structure is
/// untouched, and every query on `y` now answers what a query on `y ^ m`
/// answered before.
pub open spec fn remasked(pre: BinaryTrie, post: BinaryTrie, m: usize) -> bool {
    &&& post.wf()
    &&& post.spec_bits() == pre.spec_bits()
    &&& post.spec_mask() == pre.spec_mask() ^ m
    &&& post.spec_nodes() == pre.spec_nodes()
    &&& forall|y: usize, k: nat|
        k <= pre.spec_bits()
            ==> #[trigger] post.spec_count_prefix(y, k) == pre.spec_count_prefix(y ^ m, k)
}

impl BinaryTrie {
    /// An empty trie over keys of `bits` bits: a root-only pool with count
    /// zero and mask zero, so every prefix count is zero.
    pub fn new(bits: u32) -> (t: BinaryTrie)
        requires
            1 <= bits <= usize::BITS,
        ensures
            t.wf(),
            t.spec_bits() == bits as nat,
            t.spec_mask() == 0,
            t.spec_num_nodes() == 1,
            forall|x: usize, k: nat| k <= bits ==> #[trigger] t.spec_count_prefix(x, k) == 0,
            t.spec_dump() == seq![':', ' ', '0'],
    {
        let mut pool: Vec<Node> = Vec::new();
        pool.push(Node::new());
        let ghost pm = map![0int => Seq::<bool>::empty()];
        let t = BinaryTrie { xor: 0, bits, pool, paths: Ghost(pm) };
        proof {
            assert(t.wf());
            assert(child_of(t.pool@[0int], false) is None);
            assert(child_of(t.pool@[0int], true) is None);
            assert(digit_char(0) == '0');
            assert(t.spec_dump() =~= seq![':', ' ', '0']);
            assert forall|x: usize, k: nat| k <= bits implies #[trigger] t.spec_count_prefix(
                x,
                k,
            ) == 0 by {
                let p = key_path(x ^ t.xor, t.bits as nat, k);
                if k == 0 {
                    assert(resolve(t.pool@, p) == Some(0int));
                } else {
                    lemma_resolve_root_only(t.pool@, p);
                }
            }
        }
        t
    }

    /// Gathers what a finished insertion walk established into the public
    /// relation: old nodes and links were kept at their indices, one node
    /// was appended per missing child on the key's path, exactly the path
    /// nodes gained a count, and every prefix query rose accordingly.
    proof fn lemma_insert_publish(pre: BinaryTrie, post: BinaryTrie, x: usize)
        requires
            pre.wf(),
            post.bits == pre.bits,
            post.xor == pre.xor,
            pre.pool@.len() <= post.pool@.len(),
            links_ok(post.pool@),
            paths_ok(post.pool@, post.paths@, pre.bits as nat),
            counts_ok(post.pool@, post.paths@, pre.bits as nat),
            forall|j: int|
                0 <= j < post.pool@.len() ==> #[trigger] count_shifted(
                    pre.pool@,
                    post.pool@,
                    post.paths@,
                    masked_path(pre, x),
                    (pre.bits + 1) as nat,
                    j,
                ),
            forall|j: int, b: bool|
                0 <= j < pre.pool@.len() && (#[trigger] child_of(pre.pool@[j], b)) is Some
                    ==> child_of(post.pool@[j], b) == child_of(pre.pool@[j], b),
            forall|j: int, b: bool|
                0 <= j < pre.pool@.len() && child_of(pre.pool@[j], b) is None && (
                #[trigger] child_of(post.pool@[j], b)) is Some ==> child_of(
                    post.pool@[j],
                    b,
                ).unwrap() >= pre.pool@.len(),
            forall|j: int| 0 <= j < pre.pool@.len() ==> #[trigger] post.paths@[j] == pre.paths@[j],
            forall|j: int|
                pre.pool@.len() <= j < post.pool@.len() ==> (#[trigger] post.paths@[j]).len()
                    <= pre.bits && post.paths@[j] == masked_path(pre, x).take(
                    post.paths@[j].len() as int,
                ),
            resolve(post.pool@, masked_path(pre, x)) is Some,
            post.pool@.len() == pre.pool@.len() + missing_on_path(
                pre.pool@,
                masked_path(pre, x),
                pre.bits as nat,
            ),
        ensures
            inserted(pre, post, x),
    {
        let width = pre.bits as nat;
        let pool0 = pre.pool@;
        let pool_f = post.pool@;
        let pm0 = pre.paths@;
        let pm_f = post.paths@;
        let full = masked_path(pre, x);
        let l0 = pool0.len() as int;
        assert(full.len() == width);
        assert(post.wf());
        lemma_missing_le(pool0, full, width);
        // fresh nodes link only to fresh nodes: an original node owning a
        // strict extension of a fresh path would make the fresh path
        // resolve in the original pool, and then an original node would
        // own the fresh node's own path
        assert forall|j: int, b: bool|
            l0 <= j < pool_f.len() && (#[trigger] child_of(pool_f[j], b)) is Some implies child_of(
            pool_f[j],
            b,
        ).unwrap() >= l0 by {
            let c = child_of(pool_f[j], b).unwrap() as int;
            assert(j < c < pool_f.len());
            assert(pm_f[c] == pm_f[j].push(b));
            if c < l0 {
                assert(pm0[c] == pm_f[c]);
                assert(resolve(pool0, pm0[c]) == Some(c));
                assert(pm_f[c].drop_last() =~= pm_f[j]);
                assert(resolve(pool0, pm_f[j]) is Some);
                let n0 = resolve(pool0, pm_f[j]).unwrap();
                lemma_resolve_gives_path(pool0, pm0, width, pm_f[j], n0);
                assert(pm0[n0] == pm_f[j]);
                assert(pm_f[n0] == pm_f[j]);
                assert(resolve(pool_f, pm_f[n0]) == Some(n0));
                assert(resolve(pool_f, pm_f[j]) == Some(j));
                assert(false);
            }
        }
        // original nodes: one count more exactly on the key's path
        assert forall|j: int| 0 <= j < l0 implies (#[trigger] pool_f[j]).count == pool0[j].count
            + (
        if on_key_path(pool0, full, width, j) {
            1nat
        } else {
            0nat
        }) by {
            assert(count_shifted(pool0, pool_f, pm_f, full, (width + 1) as nat, j));
            assert(pm_f[j] == pm0[j]);
            lemma_on_path_correspondence(pool0, pm0, width, full, j);
        }
        // fresh nodes: count one, and they sit on the key's path
        assert forall|j: int| l0 <= j < pool_f.len() implies (#[trigger] pool_f[j]).count == 1
            && on_key_path(pool_f, full, width, j) by {
            assert(count_shifted(pool0, pool_f, pm_f, full, (width + 1) as nat, j));
            assert(pm_f[j] == full.take(pm_f[j].len() as int));
            assert(full.take(pm_f[j].len() as int).len() == pm_f[j].len());
            assert(on_walked(pm_f[j], full, (width + 1) as nat));
            assert(orig_count(pool0, j) == 0);
            let k = pm_f[j].len() as int;
            assert(resolve(pool_f, pm_f[j]) == Some(j));
            assert(full.take(k) == pm_f[j]);
            assert(on_key_path(pool_f, full, width, j));
        }
        // every prefix query rose exactly on the key's prefixes
        assert forall|y: usize, k: nat| k <= width implies #[trigger] post.spec_count_prefix(y, k)
            == pre.spec_count_prefix(y, k) + (
        if key_match(x, y, pre.xor, width, k) {
            1nat
        } else {
            0nat
        }) by {
            let q = key_path(y ^ pre.xor, width, k);
            assert(q.len() == k);
            assert(key_path(x ^ pre.xor, width, k) =~= full.take(k as int));
            lemma_insert_query(pool0, pm0, pool_f, pm_f, full, width, q);
            assert(post.spec_count_prefix(y, k) == query_count(pool_f, q));
            assert(pre.spec_count_prefix(y, k) == query_count(pool0, q));
        }
    }

    /// Inserts one occurrence of `x`: walks the bits of `x ^ mask` from most
    /// significant to least, incrementing each visited node's count and
    /// lazily creating missing children, then increments the leaf reached.
    /// Every prefix count of the transformed key rises by exactly one. The
    /// total count must still have room; it is bounded by `usize`.
    #[verifier::rlimit(100)]
    #[verifier::spinoff_prover]
    pub fn insert(&mut self, x: usize)
        requires
            old(self).wf(),
            old(self).spec_total() < usize::MAX,
        ensures
            inserted(*old(self), *final(self), x),
    {
        let ghost width = old(self).bits as nat;
        let ghost pool0 = old(self).pool@;
        let ghost pm0 = old(self).paths@;
        let ghost l0 = pool0.len() as int;
        let ghost m0 = old(self).xor;
        let xm = x ^ self.xor;
        let ghost full = key_path(xm, width, width);
        let mut node: usize = 0;
        let mut i: u32 = 0;
        proof {
            assert(key_path(0 ^ m0, width, 0nat).len() == 0);
            assert(resolve(pool0, key_path(0 ^ m0, width, 0nat)) == Some(0int));
            assert(pool0[0].count < usize::MAX);
            assert(full.take(0int) =~= pm0[0]);
            assert(full.take(0int).len() == 0);
            assert(missing_on_path(pool0, full, 0nat) == 0);
            assert(resolve(pool0, full.take(0int)) == Some(0int));
            assert forall|j: int| 0 <= j < pool0.len() implies #[trigger] count_shifted(
                pool0,
                pool0,
                pm0,
                full,
                0nat,
                j,
            ) by {
                assert(!on_walked(pm0[j], full, 0nat));
            }
            assert forall|j: int| 0 <= j < pool0.len() implies #[trigger] debt_ok(
                pool0,
                pm0,
                full,
                width,
                0nat,
                j,
            ) by {
                assert(counts_ok(pool0, pm0, width));
            }
        }
        while i < self.bits
            invariant
                self.bits == old(self).bits,
                self.xor == m0,
                1 <= self.bits <= usize::BITS,
                width == self.bits as nat,
                xm == x ^ m0,
                full == key_path(xm, width, width),
                l0 == pool0.len(),
                links_ok(pool0),
                paths_ok(pool0, pm0, width),
                counts_ok(pool0, pm0, width),
                pool0[0].count < usize::MAX,
                i <= self.bits,
                node < self.pool@.len(),
                forall|j: int| 0 <= j < l0 ==> #[trigger] self.paths@[j] == pm0[j],
                self.pool@.len() == l0 + missing_on_path(pool0, full, i as nat),
                node < l0 ==> resolve(pool0, full.take(i as int)) == Some(node as int),
                node >= l0 ==> resolve(pool0, full.take(i as int)) is None,
                forall|j: int, b: bool|
                    0 <= j < l0 && child_of(pool0[j], b) is None && (#[trigger] child_of(
                        self.pool@[j],
                        b,
                    )) is Some ==> child_of(self.pool@[j], b).unwrap() >= l0,
                insert_inv(pool0, self.pool@, self.paths@, full, width, i as nat, node as int),
            decreases self.bits - i,
        {
            let ghost pool_s = self.pool@;
            let ghost pm_s = self.paths@;
            let cur = self.pool[node];
            let sh: u32 = self.bits - 1 - i;
            let d: usize = (xm >> sh) & 1;
            proof {
                assert((xm >> sh) & 1 <= 1) by (bit_vector);
            }
            let ghost b = d == 1;
            let ghost p = pm_s[node as int];
            proof {
                assert(p == full.take(i as int));
                assert(full.take(i as int).len() == i);
                assert(full[i as int] == b);
                // the increment cannot overflow: the node's count is an
                // original count, bounded by the original root's
                assert(count_shifted(pool0, pool_s, pm_s, full, i as nat, node as int));
                assert(!on_walked(p, full, i as nat));
                assert(cur.count == orig_count(pool0, node as int));
                if node < l0 {
                    assert(pm0[node as int] == p);
                    assert(resolve(pool0, pm0[node as int]) == Some(node as int));
                    lemma_count_le_root(pool0, pm0, width, p, node as int);
                }
                assert(cur.count < usize::MAX);
            }
            if cur.children[d].is_none() {
                let idx = self.pool.len();
                let ch: [Option<usize>; 2] = if d == 0 {
                    [Some(idx), cur.children[1]]
                } else {
                    [cur.children[0], Some(idx)]
                };
                self.pool[node] = Node { count: cur.count + 1, children: ch };
                self.pool.push(Node::new());
                self.paths = Ghost(pm_s.insert(idx as int, p.push(b)));
                proof {
                    let pool_e = self.pool@;
                    assert(pool_e[node as int].count == pool_s[node as int].count + 1);
                    if d == 0 {
                        assert(child_of(pool_e[node as int], false) == Some(idx));
                        assert(child_of(pool_e[node as int], true) == child_of(
                            pool_s[node as int],
                            true,
                        ));
                    } else {
                        assert(child_of(pool_e[node as int], true) == Some(idx));
                        assert(child_of(pool_e[node as int], false) == child_of(
                            pool_s[node as int],
                            false,
                        ));
                    }
                    assert(child_of(pool_s[node as int], b) is None);
                    assert(idx as int >= l0);
                    assert(forall|j: int| 0 <= j < l0 ==> #[trigger] self.paths@[j] == pm_s[j]);
                    lemma_insert_step_fresh(
                        pool0,
                        pool_s,
                        pool_e,
                        pm_s,
                        self.paths@,
                        full,
                        width,
                        i as nat,
                        node as int,
                        b,
                    );
                    // the slot was absent in the original pool as well, so
                    // this step is one of the path's missing children
                    assert(full.take(i as int + 1).drop_last() =~= full.take(i as int));
                    assert(full.take(i as int + 1).last() == b);
                    if node < l0 {
                        assert(child_of(pool0[node as int], b) is None) by {
                            if child_of(pool0[node as int], b) is Some {
                                assert(child_of(pool_s[node as int], b) == child_of(
                                    pool0[node as int],
                                    b,
                                ));
                            }
                        }
                        assert(resolve(pool0, full.take(i as int + 1)) is None);
                    } else {
                        assert(full.take(i as int).is_prefix_of(full.take(i as int + 1))) by {
                            assert(full.take(i as int) =~= full.take(i as int + 1).take(i as int));
                        }
                        lemma_resolve_none_extend(
                            pool0,
                            full.take(i as int),
                            full.take(i as int + 1),
                        );
                    }
                    assert(missing_on_path(pool0, full, (i + 1) as nat) == missing_on_path(
                        pool0,
                        full,
                        i as nat,
                    ) + 1);
                    assert forall|j: int, b2: bool|
                        0 <= j < l0 && child_of(pool0[j], b2) is None && (#[trigger] child_of(
                            pool_e[j],
                            b2,
                        )) is Some implies child_of(pool_e[j], b2).unwrap() >= l0 by {
                        if j == node as int && b2 == b {
                            assert(child_of(pool_e[j], b2) == Some(idx));
                        } else if j == node as int {
                            assert(b2 == !b);
                            assert(child_of(pool_e[j], b2) == child_of(pool_s[j], b2));
                        } else {
                            assert(pool_e[j] == pool_s[j]);
                            assert(child_of(pool_e[j], b2) == child_of(pool_s[j], b2));
                        }
                    }
                }
                node = idx;
            } else {
                let next = match cur.children[d] {
                    Some(c) => c,
                    None => 0,
                };
                self.pool[node] = Node { count: cur.count + 1, children: cur.children };
                proof {
                    let pool_e = self.pool@;
                    assert(child_of(pool_s[node as int], b) == Some(next));
                    lemma_insert_step_follow(
                        pool0,
                        pool_s,
                        pool_e,
                        pm_s,
                        full,
                        width,
                        i as nat,
                        node as int,
                        b,
                        next,
                    );
                    // the followed child already existed when the walk
                    // began, so this prefix resolves in the original pool
                    assert(pm_s[next as int] == p.push(b));
                    assert(next < l0) by {
                        if next >= l0 {
                            assert(pm_s[next as int].len() <= i);
                        }
                    }
                    assert(p.push(b) =~= full.take(i as int + 1));
                    assert(pm0[next as int] == pm_s[next as int]);
                    assert(resolve(pool0, pm0[next as int]) == Some(next as int));
                    assert(resolve(pool0, full.take(i as int + 1)) == Some(next as int));
                    assert(missing_on_path(pool0, full, (i + 1) as nat) == missing_on_path(
                        pool0,
                        full,
                        i as nat,
                    ));
                    assert(forall|j: int, b2: bool|
                        0 <= j < pool_s.len() ==> child_of(pool_e[j], b2) == #[trigger] child_of(
                            pool_s[j],
                            b2,
                        ));
                }
                node = next;
            }
            i = i + 1;
        }
        // the leaf at full depth gets the final increment
        let cur = self.pool[node];
        let ghost pool_s = self.pool@;
        let ghost pm_f = self.paths@;
        proof {
            assert(pm_f[node as int] == full.take(width as int));
            assert(full.take(width as int).len() == width);
            assert(count_shifted(pool0, pool_s, pm_f, full, width, node as int));
            assert(!on_walked(pm_f[node as int], full, width));
            assert(cur.count == orig_count(pool0, node as int));
            if node < l0 {
                assert(pm0[node as int] == pm_f[node as int]);
                assert(full.take(width as int) =~= full);
                assert(resolve(pool0, pm0[node as int]) == Some(node as int));
                lemma_count_le_root(pool0, pm0, width, pm0[node as int], node as int);
            }
            assert(cur.count < usize::MAX);
        }
        self.pool[node] = Node { count: cur.count + 1, children: cur.children };
        proof {
            let pool_f = self.pool@;
            lemma_insert_finish(pool0, pool_s, pool_f, pm_f, full, width, node as int);
            // the leaf increment leaves every child link alone
            assert forall|j: int, b2: bool|
                0 <= j < l0 && child_of(pool0[j], b2) is None && (#[trigger] child_of(
                    pool_f[j],
                    b2,
                )) is Some implies child_of(pool_f[j], b2).unwrap() >= l0 by {
                if j == node as int {
                    assert(child_of(pool_f[j], b2) == child_of(pool_s[j], b2));
                } else {
                    assert(pool_f[j] == pool_s[j]);
                    assert(child_of(pool_f[j], b2) == child_of(pool_s[j], b2));
                }
                assert(child_of(pool_s[j], b2) is Some);
            }
            assert(pool_f.len() == l0 + missing_on_path(pool0, full, width));
            assert(masked_path(*old(self), x) == full);
            BinaryTrie::lemma_insert_publish(*old(self), *self, x);
        }
    }

    /// A removal of an absent value is a no-op, and a no-op satisfies the
    /// removal relation.
    proof fn lemma_remove_noop(pre: BinaryTrie, x: usize)
        requires
            pre.wf(),
            pre.spec_count(x) == 0,
        ensures
            removed(pre, pre, x),
    {
    }

    /// Gathers what a finished removal walk established into the public
    /// relation: the structure equals the original one, exactly the path
    /// nodes lost a count, and every prefix query dropped accordingly.
    proof fn lemma_remove_publish(pre: BinaryTrie, post: BinaryTrie, x: usize)
        requires
            pre.wf(),
            post.bits == pre.bits,
            post.xor == pre.xor,
            post.paths@ == pre.paths@,
            remove_inv(
                pre.pool@,
                post.pool@,
                pre.paths@,
                masked_path(pre, x),
                pre.bits as nat,
                (pre.bits + 1) as nat,
            ),
            resolve(pre.pool@, masked_path(pre, x)) is Some,
            pre.spec_count(x) > 0,
        ensures
            removed(pre, post, x),
    {
        let width = pre.bits as nat;
        let pool0 = pre.pool@;
        let pool_f = post.pool@;
        let pm0 = pre.paths@;
        let full = masked_path(pre, x);
        assert(full.take(width as int).len() == width);
        assert forall|t: int|
            0 <= t < pool_f.len() && (#[trigger] pm0[t]).len() < width implies pool_f[t].count
            == child_count(pool_f, t, false) + child_count(pool_f, t, true) by {
            assert(drop_debt_ok(pool_f, pm0, full, width, (width + 1) as nat, t));
        }
        assert(post.wf());
        assert forall|j: int, b: bool|
            0 <= j < pool_f.len() implies #[trigger] child_of(pool_f[j], b) == child_of(
            pool0[j],
            b,
        ) by {
            assert(child_of(pool_f[j], b) == child_of(pool0[j], b));
        }
        assert forall|j: int| 0 <= j < pool_f.len() implies (#[trigger] pool_f[j]).count + (
        if on_key_path(pool0, full, width, j) {
            1nat
        } else {
            0nat
        }) == pool0[j].count by {
            assert(count_dropped(pool0, pool_f, pm0, full, (width + 1) as nat, j));
            lemma_on_path_correspondence(pool0, pm0, width, full, j);
        }
        assert forall|y: usize, k: nat| k <= width implies #[trigger] pre.spec_count_prefix(y, k)
            == post.spec_count_prefix(y, k) + (
        if key_match(x, y, pre.xor, width, k) {
            1nat
        } else {
            0nat
        }) by {
            let q = key_path(y ^ pre.xor, width, k);
            assert(q.len() == k);
            assert(key_path(x ^ pre.xor, width, k) =~= full.take(k as int));
            lemma_remove_query(pool0, pm0, pool_f, full, width, q);
            assert(post.spec_count_prefix(y, k) == query_count(pool_f, q));
            assert(pre.spec_count_prefix(y, k) == query_count(pool0, q));
        }
    }

    /// Removes one occurrence of `x` if it is present: walks the bits of
    /// `x ^ mask` collecting the path, and decrements the count of every
    /// node on it, leaf included. Where the path is missing, or the leaf's
    /// count is already zero, nothing was stored under the transformed key
    /// and the trie is left untouched, so counts never fall below zero;
    /// nodes are never deleted, the pool only grows.
    #[verifier::rlimit(100)]
    #[verifier::spinoff_prover]
    pub fn remove(&mut self, x: usize)
        requires
            old(self).wf(),
        ensures
            removed(*old(self), *final(self), x),
    {
        let ghost width = old(self).bits as nat;
        let ghost pool0 = old(self).pool@;
        let ghost pm0 = old(self).paths@;
        let ghost m0 = old(self).xor;
        let xm = x ^ self.xor;
        let ghost full = key_path(xm, width, width);
        let mut path: Vec<usize> = Vec::new();
        let mut node: usize = 0;
        let mut i: u32 = 0;
        proof {
            assert(full.len() == width);
            assert(full.take(0int) =~= pm0[0]);
        }
        while i < self.bits
            invariant
                *self == *old(self),
                self.wf(),
                width == self.bits as nat,
                xm == x ^ self.xor,
                full == key_path(xm, width, width),
                full.len() == width,
                i <= self.bits,
                path@.len() == i,
                node < self.pool@.len(),
                self.paths@[node as int] == full.take(i as int),
                forall|m: int|
                    0 <= m < i ==> (#[trigger] path@[m]) < self.pool@.len() && self.paths@[path@[m] as int]
                        == full.take(m) && self.pool@[path@[m] as int].count
                        >= self.pool@[node as int].count,
            decreases self.bits - i,
        {
            path.push(node);
            let cur = self.pool[node];
            let sh: u32 = self.bits - 1 - i;
            let d: usize = (xm >> sh) & 1;
            proof {
                assert((xm >> sh) & 1 <= 1) by (bit_vector);
            }
            let ghost b = d == 1;
            let ghost p = full.take(i as int);
            proof {
                assert(p.len() == i);
                assert(full[i as int] == b);
                assert(full.take(i as int + 1) =~= p.push(b));
                assert(p.push(b).drop_last() =~= p);
                assert(resolve(self.pool@, self.paths@[node as int]) == Some(node as int));
            }
            match cur.children[d] {
                Some(c) => {
                    proof {
                        assert(child_of(self.pool@[node as int], b) == Some(c));
                        assert(c < self.pool@.len());
                        assert(self.paths@[c as int] == p.push(b));
                        assert(self.paths@[node as int].len() < width);
                        assert(self.pool@[node as int].count == child_count(
                            self.pool@,
                            node as int,
                            false,
                        ) + child_count(self.pool@, node as int, true));
                        assert(child_count(self.pool@, node as int, b) == self.pool@[c as int].count);
                    }
                    node = c;
                },
                None => {
                    proof {
                        assert(child_of(self.pool@[node as int], b) is None);
                        assert(resolve(self.pool@, p.push(b)) is None);
                        assert(p.push(b).is_prefix_of(full)) by {
                            assert(p.push(b) =~= full.take(i as int + 1));
                        }
                        lemma_resolve_none_extend(self.pool@, p.push(b), full);
                        assert(old(self).spec_count(x) == 0);
                        BinaryTrie::lemma_remove_noop(*old(self), x);
                    }
                    return;
                },
            }
            i = i + 1;
        }
        proof {
            assert(full.take(width as int) =~= full);
            assert(resolve(self.pool@, full) == Some(node as int));
        }
        if self.pool[node].count == 0 {
            proof {
                assert(old(self).spec_count(x) == 0);
                BinaryTrie::lemma_remove_noop(*old(self), x);
            }
            return;
        }
        path.push(node);
        let ghost leafc = self.pool@[node as int].count;
        proof {
            assert forall|m: int| 0 <= m < path@.len() implies (#[trigger] path@[m])
                < self.pool@.len() && self.paths@[path@[m] as int] == full.take(m)
                && self.pool@[path@[m] as int].count >= 1 by {
                if m < width {
                    assert(self.pool@[path@[m] as int].count >= leafc);
                }
            }
        }
        self.drop_along_path(&path, Ghost(full));
        proof {
            // the removed key was present: its leaf count was positive
            assert(old(self).spec_count(x) == leafc);
            assert(masked_path(*old(self), x) == full);
            BinaryTrie::lemma_remove_publish(*old(self), *self, x);
        }
    }

    /// Decrements the count of every node on a collected root-to-leaf
    /// path, changing no link, no index and no other count.
    #[verifier::rlimit(100)]
    #[verifier::spinoff_prover]
    fn drop_along_path(&mut self, path: &Vec<usize>, Ghost(full): Ghost<Seq<bool>>)
        requires
            old(self).wf(),
            full.len() == old(self).spec_bits(),
            path@.len() == old(self).spec_bits() + 1,
            forall|m: int|
                0 <= m < path@.len() ==> (#[trigger] path@[m]) < old(self).pool@.len() && old(
                    self,
                ).paths@[path@[m] as int] == full.take(m) && old(self).pool@[path@[m] as int].count
                    >= 1,
        ensures
            final(self).bits == old(self).bits,
            final(self).xor == old(self).xor,
            final(self).paths@ == old(self).paths@,
            remove_inv(
                old(self).pool@,
                final(self).pool@,
                old(self).paths@,
                full,
                old(self).bits as nat,
                (old(self).bits + 1) as nat,
            ),
    {
        let ghost width = old(self).bits as nat;
        let ghost pool0 = old(self).pool@;
        let ghost pm0 = old(self).paths@;
        proof {
            lemma_remove_inv_start(pool0, pm0, full, width);
        }
        let mut j: usize = 0;
        while j < path.len()
            invariant
                self.bits == old(self).bits,
                self.xor == old(self).xor,
                self.paths@ == pm0,
                width == self.bits as nat,
                full.len() == width,
                pool0 == old(self).pool@,
                pm0 == old(self).paths@,
                links_ok(pool0),
                paths_ok(pool0, pm0, width),
                pool0.len() >= 1,
                path@.len() == width + 1,
                j <= path@.len(),
                forall|m: int|
                    0 <= m < path@.len() ==> (#[trigger] path@[m]) < pool0.len() && pm0[path@[m] as int]
                        == full.take(m) && pool0[path@[m] as int].count >= 1,
                remove_inv(pool0, self.pool@, pm0, full, width, j as nat),
            decreases path@.len() - j,
        {
            let idx = path[j];
            let cur = self.pool[idx];
            let ghost pool_s = self.pool@;
            proof {
                assert(count_dropped(pool0, pool_s, pm0, full, j as nat, idx as int));
                assert(pm0[idx as int] == full.take(j as int));
                assert(full.take(j as int).len() == j);
                assert(!on_walked(pm0[idx as int], full, j as nat));
                assert(cur.count == orig_count(pool0, idx as int));
                assert(cur.count >= 1);
            }
            self.pool[idx] = Node { count: cur.count - 1, children: cur.children };
            proof {
                lemma_remove_step(pool0, pool_s, self.pool@, pm0, full, width, j as nat, idx as int);
            }
            j = j + 1;
        }
    }

    /// The number of stored values whose first `bits` bits, after the XOR
    /// transform, equal the first `bits` bits of `x ^ mask`. With `bits` at
    /// zero it returns the root's count, the total number of stored values.
    /// Callers must keep `bits` within the key width: that is a checked
    /// precondition here, since a larger request has no meaning.
    pub fn count_prefix(&self, x: usize, bits: u32) -> (r: usize)
        requires
            self.wf(),
            bits <= self.spec_bits(),
        ensures
            r == self.spec_count_prefix(x, bits as nat),
    {
        let ghost width = self.bits as nat;
        let xm = x ^ self.xor;
        let ghost full = key_path(xm, width, bits as nat);
        let mut node: usize = 0;
        let mut i: u32 = 0;
        proof {
            assert(key_path(xm, width, 0nat) =~= Seq::<bool>::empty());
        }
        while i < bits
            invariant
                self.wf(),
                bits <= self.bits,
                width == self.bits as nat,
                xm == x ^ self.xor,
                full == key_path(xm, width, bits as nat),
                i <= bits,
                node < self.pool@.len(),
                resolve(self.pool@, key_path(xm, width, i as nat)) == Some(node as int),
            decreases bits - i,
        {
            let sh: u32 = self.bits - 1 - i;
            let d: usize = (xm >> sh) & 1;
            proof {
                assert((xm >> sh) & 1 <= 1) by (bit_vector);
            }
            let ghost b = d == 1;
            let ghost p = key_path(xm, width, i as nat);
            proof {
                assert(key_path(xm, width, (i + 1) as nat) =~= p.push(b)) by {
                    assert(bit_of(xm, sh) == b);
                }
                assert(p.push(b).drop_last() =~= p);
            }
            match self.pool[node].children[d] {
                Some(c) => {
                    proof {
                        assert(child_of(self.pool@[node as int], b) == Some(c));
                        assert(resolve(self.pool@, p.push(b)) == Some(c as int));
                        assert(c < self.pool@.len()) by {
                            assert(links_ok(self.pool@));
                        }
                    }
                    node = c;
                },
                None => {
                    proof {
                        assert(child_of(self.pool@[node as int], b) is None);
                        assert(resolve(self.pool@, p.push(b)) is None);
                        assert(key_path(xm, width, (i + 1) as nat).is_prefix_of(full)) by {
                            assert(key_path(xm, width, (i + 1) as nat) =~= full.take(i + 1));
                        }
                        lemma_resolve_none_extend(
                            self.pool@,
                            key_path(xm, width, (i + 1) as nat),
                            full,
                        );
                    }
                    return 0;
                },
            }
            i = i + 1;
        }
        self.pool[node].count
    }

    /// The exact multiplicity of `x` in the stored multiset (after the XOR
    /// transform): its count over the full key width.
    pub fn count(&self, x: usize) -> (r: usize)
        requires
            self.wf(),
        ensures
            r == self.spec_count(x),
    {
        self.count_prefix(x, self.bits)
    }

    /// Whether `x` (after the XOR transform) is currently stored at least
    /// once.
    pub fn contains(&self, x: usize) -> (r: bool)
        requires
            self.wf(),
        ensures
            r == (self.spec_count(x) > 0),
    {
        self.count(x) > 0
    }

    /// The rendering `dump` returns.
    pub closed spec fn spec_dump(&self) -> Seq<char> {
        dump_at(self.pool@, 0, 0)
    }

    /// Renders the subtree at pool index `n`, sitting at `depth`, onto
    /// `out`.
    fn dump_node(&self, depth: u32, n: usize, out: &mut String)
        requires
            self.wf(),
            n < self.pool@.len(),
            self.paths@[n as int].len() == depth,
        ensures
            final(out)@ == old(out)@ + dump_at(self.pool@, depth as nat, n as int),
        decreases self.pool@.len() - n as nat,
    {
        let ghost pre = out@;
        let c0 = self.pool[n].children[0];
        let c1 = self.pool[n].children[1];
        proof {
            assert(child_of(self.pool@[n as int], false) == c0);
            assert(child_of(self.pool@[n as int], true) == c1);
            reveal_strlit("0");
            reveal_strlit("1");
            reveal_strlit("\n");
            reveal_strlit(": ");
        }
        match (c0, c1) {
            (Some(a), Some(bc)) => {
                proof {
                    assert(self.paths@[a as int] == self.paths@[n as int].push(false));
                    assert(self.paths@[bc as int] == self.paths@[n as int].push(true));
                    assert(self.paths@[n as int].len() < self.bits);
                    assert(n < a < self.pool@.len());
                    assert(n < bc < self.pool@.len());
                }
                out.append("0");
                self.dump_node(depth + 1, a, out);
                out.append("\n");
                let ghost mid = out@;
                let mut k: u32 = 0;
                while k < depth
                    invariant
                        k <= depth,
                        out@ == mid + spaces(k as nat),
                    decreases depth - k,
                {
                    out.append(" ");
                    proof {
                        reveal_strlit(" ");
                        assert(mid + spaces(k as nat) + " "@ =~= mid + spaces((k + 1) as nat));
                    }
                    k = k + 1;
                }
                out.append("1");
                self.dump_node(depth + 1, bc, out);
                proof {
                    assert(out@ =~= pre + dump_at(self.pool@, depth as nat, n as int));
                }
            },
            (Some(a), None) => {
                proof {
                    assert(self.paths@[a as int] == self.paths@[n as int].push(false));
                    assert(self.paths@[n as int].len() < self.bits);
                    assert(n < a < self.pool@.len());
                }
                out.append("0");
                self.dump_node(depth + 1, a, out);
                proof {
                    assert(out@ =~= pre + dump_at(self.pool@, depth as nat, n as int));
                }
            },
            (None, Some(bc)) => {
                proof {
                    assert(self.paths@[bc as int] == self.paths@[n as int].push(true));
                    assert(self.paths@[n as int].len() < self.bits);
                    assert(n < bc < self.pool@.len());
                }
                out.append("1");
                self.dump_node(depth + 1, bc, out);
                proof {
                    assert(out@ =~= pre + dump_at(self.pool@, depth as nat, n as int));
                }
            },
            (None, None) => {
                out.append(": ");
                push_dec(out, self.pool[n].count);
                proof {
                    assert(out@ =~= pre + dump_at(self.pool@, depth as nat, n as int));
                }
            },
        }
    }

    /// A human-readable rendering of the trie for inspection and tests:
    /// starting at the root, each present child appears as its bit digit
    /// followed by its own subtree (a second child on a new line, indented
    /// by its depth), and a node with no children shows its stored count
    /// after a colon.
    pub fn dump(&self) -> (s: String)
        requires
            self.wf(),
        ensures
            s@ == self.spec_dump(),
    {
        let mut s = String::new();
        proof {
            assert(self.paths@[0int].len() == 0);
        }
        self.dump_node(0, 0, &mut s);
        proof {
            assert(s@ =~= dump_at(self.pool@, 0nat, 0int));
        }
        s
    }

    /// Folds `x` into the persistent XOR mask. The stored tree is untouched:
    /// only how later operations interpret their argument changes, so every
    /// query on `y` now answers what a query on `y ^ x` answered before.
    pub fn xor_all(&mut self, x: usize)
        requires
            old(self).wf(),
        ensures
            remasked(*old(self), *final(self), x),
    {
        let ghost m0 = self.xor;
        self.xor = self.xor ^ x;
        proof {
            assert forall|y: usize, k: nat| k <= old(self).spec_bits() implies #[trigger] self
                .spec_count_prefix(y, k) == old(self).spec_count_prefix(y ^ x, k) by {
                assert(y ^ (m0 ^ x) == (y ^ x) ^ m0) by (bit_vector);
            }
        }
    }
}

/// Two tries over the same node pool render the same dump: the rendering
/// reads nothing but the pool.
pub proof fn lemma_same_nodes_same_dump(t1: BinaryTrie, t2: BinaryTrie)
    requires
        t1.spec_nodes() == t2.spec_nodes(),
    ensures
        t1.spec_dump() == t2.spec_dump(),
{
}

/// Bits at positions at or above the key width are never inspected: two
/// keys that agree on their low `bits` bits walk the same path, satisfy
/// the same `key_match` conditions, and answer every query alike — so
/// every operation's contract treats them identically.
pub proof fn lemma_high_bits_ignored(t: BinaryTrie, x: usize, y: usize)
    requires
        forall|i: u32| i < t.spec_bits() ==> #[trigger] bit_of(x, i) == bit_of(y, i),
    ensures
        masked_path(t, x) == masked_path(t, y),
        forall|k: nat| k <= t.spec_bits() ==> key_match(x, y, t.spec_mask(), t.spec_bits(), k),
        forall|k: nat|
            k <= t.spec_bits() ==> #[trigger] t.spec_count_prefix(x, k) == t.spec_count_prefix(
                y,
                k,
            ),
{
    let m = t.xor;
    let width = t.bits as nat;
    assert forall|i: u32| i < width implies #[trigger] bit_of(x ^ m, i) == bit_of(y ^ m, i) by {
        assert(bit_of(x, i) == bit_of(y, i));
        assert(((x ^ m) >> i) & 1 == (((x >> i) & 1) ^ ((m >> i) & 1))) by (bit_vector);
        assert(((y ^ m) >> i) & 1 == (((y >> i) & 1) ^ ((m >> i) & 1))) by (bit_vector);
        assert((x >> i) & 1 <= 1) by (bit_vector);
        assert((y >> i) & 1 <= 1) by (bit_vector);
        assert((m >> i) & 1 <= 1) by (bit_vector);
    }
    assert forall|k: nat| k <= width implies key_path(x ^ m, width, k) == key_path(
        y ^ m,
        width,
        k,
    ) by {
        assert(key_path(x ^ m, width, k) =~= key_path(y ^ m, width, k));
    }
    assert(masked_path(t, x) =~= masked_path(t, y));
}

/// A prefix query with zero requested bits reads the root's count whatever
/// the key is: every key agrees on its first zero bits, so the answer is
/// the total number of stored values.
pub proof fn lemma_prefix_zero_is_total(t: BinaryTrie, x: usize)
    requires
        t.wf(),
    ensures
        t.spec_count_prefix(x, 0) == t.spec_total(),
{
    assert(key_path(x ^ t.xor, t.bits as nat, 0nat).len() == 0);
    assert(key_path(0 ^ t.xor, t.bits as nat, 0nat).len() == 0);
    assert(resolve(t.pool@, key_path(x ^ t.xor, t.bits as nat, 0nat)) == Some(0int));
    assert(resolve(t.pool@, key_path(0 ^ t.xor, t.bits as nat, 0nat)) == Some(0int));
}

} // verus!
