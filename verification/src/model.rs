use vstd::prelude::*;
use crate::node::{Node, child_of};

verus! {

/// Bit `i` of `x`, with bit 0 the least significant.
pub open spec fn bit_of(x: usize, i: u32) -> bool {
    (x >> i) & 1 == 1
}

/// The first `k` bits of `x` read inside a window of `width` bits, most
/// significant bit first: element `i` is bit `width - 1 - i` of `x`.
pub open spec fn key_path(x: usize, width: nat, k: nat) -> Seq<bool>
    recommends
        k <= width,
{
    Seq::new(k, |i: int| bit_of(x, (width - 1 - i) as u32))
}

/// The pool index reached from the root (index 0) by following the child
/// slots named by `p`, or `None` where a required slot is empty.
pub open spec fn resolve(pool: Seq<Node>, p: Seq<bool>) -> Option<int>
    decreases p.len(),
{
    if p.len() == 0 {
        Some(0int)
    } else {
        match resolve(pool, p.drop_last()) {
            Some(n) => {
                if 0 <= n < pool.len() {
                    match child_of(pool[n], p.last()) {
                        Some(c) => Some(c as int),
                        None => None,
                    }
                } else {
                    None
                }
            },
            None => None,
        }
    }
}

/// Child links stay inside the pool and point strictly forward, so every
/// root path visits strictly increasing indices.
pub open spec fn links_ok(pool: Seq<Node>) -> bool {
    forall|j: int, b: bool|
        0 <= j < pool.len() && (#[trigger] child_of(pool[j], b)) is Some
            ==> j < child_of(pool[j], b).unwrap() < pool.len()
}

/// The ghost map `pm` names, for every pool index, the root path that owns
/// it: the root owns the empty path, a child owns its parent's path extended
/// by the selecting bit, paths never exceed `width`, and following a node's
/// own path from the root leads back to that node.
pub open spec fn paths_ok(pool: Seq<Node>, pm: Map<int, Seq<bool>>, width: nat) -> bool {
    &&& (forall|j: int| 0 <= j < pool.len() ==> pm.dom().contains(j))
    &&& pm[0] == Seq::<bool>::empty()
    &&& (forall|j: int| 0 <= j < pool.len() ==> (#[trigger] pm[j]).len() <= width)
    &&& (forall|j: int| 0 <= j < pool.len() ==> #[trigger] resolve(pool, pm[j]) == Some(j))
    &&& (forall|j: int, b: bool|
        0 <= j < pool.len() && (#[trigger] child_of(pool[j], b)) is Some ==> {
            &&& pm[j].len() < width
            &&& pm[child_of(pool[j], b).unwrap() as int] == pm[j].push(b)
        })
    &&& (forall|j: int|
        0 <= j < pool.len() && (#[trigger] pm[j]).len() == width
            ==> child_of(pool[j], false) is None && child_of(pool[j], true) is None)
}

/// The count carried by the child of `j` in direction `b`, or zero where the
/// slot is empty.
pub open spec fn child_count(pool: Seq<Node>, j: int, b: bool) -> nat {
    match child_of(pool[j], b) {
        Some(c) => if 0 <= c < pool.len() {
            pool[c as int].count as nat
        } else {
            0
        },
        None => 0,
    }
}

/// Every node above leaf depth carries exactly the sum of its children's
/// counts, so an inner count is the number of stored values that pass
/// through the node.
pub open spec fn counts_ok(pool: Seq<Node>, pm: Map<int, Seq<bool>>, width: nat) -> bool {
    forall|j: int|
        0 <= j < pool.len() && (#[trigger] pm[j]).len() < width
            ==> pool[j].count == child_count(pool, j, false) + child_count(pool, j, true)
}

/// The count stored at the node a path resolves to, or zero where the path
/// falls off the tree.
pub open spec fn query_count(pool: Seq<Node>, q: Seq<bool>) -> nat {
    match resolve(pool, q) {
        Some(n) => if 0 <= n < pool.len() {
            pool[n].count as nat
        } else {
            0
        },
        None => 0,
    }
}

/// The count a pool index carried before an operation began (zero for
/// indices the operation created).
pub open spec fn orig_count(pool0: Seq<Node>, j: int) -> nat {
    if 0 <= j < pool0.len() {
        pool0[j].count as nat
    } else {
        0
    }
}

/// `p` is one of the strictly shorter prefixes of `full` walked during the
/// first `i` steps of a traversal along `full`.
pub open spec fn on_walked(p: Seq<bool>, full: Seq<bool>, i: nat) -> bool {
    p.len() < i && p == full.take(p.len() as int)
}

/// A path that fails to resolve cannot resolve after being extended.
pub proof fn lemma_resolve_none_extend(pool: Seq<Node>, p: Seq<bool>, q: Seq<bool>)
    requires
        resolve(pool, p) is None,
        p.is_prefix_of(q),
    ensures
        resolve(pool, q) is None,
    decreases q.len(),
{
    if q.len() == p.len() {
        assert(p =~= q);
    } else {
        assert(p.is_prefix_of(q.drop_last())) by {
            assert(p =~= q.drop_last().take(p.len() as int));
        }
        lemma_resolve_none_extend(pool, p, q.drop_last());
    }
}

/// Resolution is stable under growing the pool and filling empty child
/// slots: a path that resolved before resolves to the same index after.
pub proof fn lemma_resolve_frame(pool1: Seq<Node>, pool2: Seq<Node>, p: Seq<bool>)
    requires
        pool1.len() <= pool2.len(),
        forall|j: int, b: bool|
            0 <= j < pool1.len() && (#[trigger] child_of(pool1[j], b)) is Some
                ==> child_of(pool2[j], b) == child_of(pool1[j], b),
        resolve(pool1, p) is Some,
    ensures
        resolve(pool2, p) == resolve(pool1, p),
    decreases p.len(),
{
    if p.len() > 0 {
        lemma_resolve_frame(pool1, pool2, p.drop_last());
    }
}

/// Two pools with identical child links resolve every path identically.
pub proof fn lemma_resolve_same_links(pool1: Seq<Node>, pool2: Seq<Node>, p: Seq<bool>)
    requires
        pool1.len() == pool2.len(),
        forall|j: int, b: bool|
            0 <= j < pool1.len() ==> child_of(pool2[j], b) == #[trigger] child_of(pool1[j], b),
    ensures
        resolve(pool2, p) == resolve(pool1, p),
    decreases p.len(),
{
    if p.len() > 0 {
        lemma_resolve_same_links(pool1, pool2, p.drop_last());
    }
}

/// Every prefix of a path that resolves also resolves.
pub proof fn lemma_resolve_prefix(pool: Seq<Node>, p: Seq<bool>, k: int)
    requires
        resolve(pool, p) is Some,
        0 <= k <= p.len(),
    ensures
        resolve(pool, p.take(k)) is Some,
    decreases p.len(),
{
    if k == p.len() {
        assert(p.take(k) =~= p);
    } else {
        assert(p.drop_last().take(k) =~= p.take(k));
        lemma_resolve_prefix(pool, p.drop_last(), k);
    }
}

/// A resolved index is owned by the path that reached it.
pub proof fn lemma_resolve_gives_path(
    pool: Seq<Node>,
    pm: Map<int, Seq<bool>>,
    width: nat,
    p: Seq<bool>,
    n: int,
)
    requires
        pool.len() >= 1,
        links_ok(pool),
        paths_ok(pool, pm, width),
        resolve(pool, p) == Some(n),
    ensures
        0 <= n < pool.len(),
        pm[n] == p,
    decreases p.len(),
{
    if p.len() == 0 {
        assert(pm[0] =~= p);
    } else {
        let parent = resolve(pool, p.drop_last()).unwrap();
        lemma_resolve_gives_path(pool, pm, width, p.drop_last(), parent);
        assert(pm[n] =~= p);
    }
}

/// Counts never grow along a root path: the root's count bounds the count of
/// every node reachable from it.
pub proof fn lemma_count_le_root(
    pool: Seq<Node>,
    pm: Map<int, Seq<bool>>,
    width: nat,
    p: Seq<bool>,
    n: int,
)
    requires
        pool.len() >= 1,
        links_ok(pool),
        paths_ok(pool, pm, width),
        counts_ok(pool, pm, width),
        resolve(pool, p) == Some(n),
    ensures
        0 <= n < pool.len(),
        pool[n].count <= pool[0].count,
    decreases p.len(),
{
    if p.len() > 0 {
        let parent = resolve(pool, p.drop_last()).unwrap();
        lemma_count_le_root(pool, pm, width, p.drop_last(), parent);
        assert(pool[parent].count
            == child_count(pool, parent, false) + child_count(pool, parent, true));
    }
}

/// From a root with no children, no non-empty path resolves.
pub proof fn lemma_resolve_root_only(pool: Seq<Node>, p: Seq<bool>)
    requires
        pool.len() >= 1,
        child_of(pool[0], false) is None,
        child_of(pool[0], true) is None,
        p.len() >= 1,
    ensures
        resolve(pool, p) is None,
    decreases p.len(),
{
    if p.len() == 1 {
        assert(p.drop_last().len() == 0);
        assert(resolve(pool, p.drop_last()) == Some(0int));
    } else {
        lemma_resolve_root_only(pool, p.drop_last());
    }
}


/// Count bookkeeping for one pool index during an insertion walk along
/// `full`: the counts of the strictly shorter walked prefixes of `full` are
/// one ahead of what the index carried in `pool0`; every other count is
/// unchanged (and zero for indices `pool0` did not have).
pub open spec fn count_shifted(
    pool0: Seq<Node>,
    pool: Seq<Node>,
    pm: Map<int, Seq<bool>>,
    full: Seq<bool>,
    i: nat,
    j: int,
) -> bool {
    pool[j].count == orig_count(pool0, j) + (
    if on_walked(pm[j], full, i) {
        1nat
    } else {
        0nat
    })
}

/// Count consistency for one pool index during an insertion walk: an inner
/// node's count is the sum of its children's counts, except at the node
/// walked last, which was already incremented while its subtree was not.
pub open spec fn debt_ok(
    pool: Seq<Node>,
    pm: Map<int, Seq<bool>>,
    full: Seq<bool>,
    width: nat,
    i: nat,
    j: int,
) -> bool {
    pm[j].len() < width ==> pool[j].count == child_count(pool, j, false) + child_count(
        pool,
        j,
        true,
    ) + (
    if i >= 1 && pm[j] == full.take(i - 1) {
        1nat
    } else {
        0nat
    })
}

/// The state of an insertion walk after `i` steps along `full`, relative to
/// the pool `pool0` the walk started from: the structure is well-formed,
/// nodes and child links were only added (and new nodes only along `full`),
/// the walked prefixes' counts are one ahead, and the one consistency debt
/// sits at the node walked last.
pub open spec fn insert_inv(
    pool0: Seq<Node>,
    pool: Seq<Node>,
    pm: Map<int, Seq<bool>>,
    full: Seq<bool>,
    width: nat,
    i: nat,
    node: int,
) -> bool {
    &&& pool0.len() >= 1
    &&& full.len() == width
    &&& i <= width
    &&& pool0.len() <= pool.len() <= pool0.len() + i
    &&& links_ok(pool)
    &&& paths_ok(pool, pm, width)
    &&& (forall|j: int, b: bool|
        0 <= j < pool0.len() && (#[trigger] child_of(pool0[j], b)) is Some
            ==> child_of(pool[j], b) == child_of(pool0[j], b))
    &&& (forall|j: int|
        pool0.len() <= j < pool.len()
            ==> (#[trigger] pm[j]).len() <= i && pm[j] == full.take(pm[j].len() as int))
    &&& 0 <= node < pool.len()
    &&& pm[node] == full.take(i as int)
    &&& (forall|j: int| 0 <= j < pool.len() ==> #[trigger] count_shifted(pool0, pool, pm, full, i, j))
    &&& (forall|j: int| 0 <= j < pool.len() ==> #[trigger] debt_ok(pool, pm, full, width, i, j))
}

/// Changing only counts (never child links or the pool's length) keeps the
/// tree structure and the ghost path map intact.
pub proof fn lemma_structure_same_links(
    pool_s: Seq<Node>,
    pool_e: Seq<Node>,
    pm: Map<int, Seq<bool>>,
    width: nat,
)
    requires
        links_ok(pool_s),
        paths_ok(pool_s, pm, width),
        pool_e.len() == pool_s.len(),
        forall|j: int, b: bool|
            0 <= j < pool_s.len() ==> child_of(pool_e[j], b) == #[trigger] child_of(pool_s[j], b),
    ensures
        links_ok(pool_e),
        paths_ok(pool_e, pm, width),
{
    assert forall|j: int, b: bool|
        0 <= j < pool_e.len() && (#[trigger] child_of(pool_e[j], b)) is Some implies j < child_of(
        pool_e[j],
        b,
    ).unwrap() < pool_e.len() by {
        assert(child_of(pool_e[j], b) == child_of(pool_s[j], b));
    }
    assert forall|j: int, b: bool|
        0 <= j < pool_e.len() && (#[trigger] child_of(pool_e[j], b)) is Some implies {
        &&& pm[j].len() < width
        &&& pm[child_of(pool_e[j], b).unwrap() as int] == pm[j].push(b)
    } by {
        assert(child_of(pool_e[j], b) == child_of(pool_s[j], b));
    }
    assert forall|j: int|
        0 <= j < pool_e.len() && (#[trigger] pm[j]).len() == width implies child_of(
        pool_e[j],
        false,
    ) is None && child_of(pool_e[j], true) is None by {
        assert(child_of(pool_e[j], false) == child_of(pool_s[j], false));
        assert(child_of(pool_e[j], true) == child_of(pool_s[j], true));
    }
    assert forall|j: int| 0 <= j < pool_e.len() implies #[trigger] resolve(pool_e, pm[j]) == Some(
        j,
    ) by {
        lemma_resolve_same_links(pool_s, pool_e, pm[j]);
    }
}

/// The consistency bookkeeping shared by both insertion step shapes: after
/// the walked node's count rose by one while its children's counts summed
/// the same, the debt moves from the walked node's parent to the walked
/// node itself.
proof fn lemma_step_consistency(
    pool_s: Seq<Node>,
    pool_e: Seq<Node>,
    pm: Map<int, Seq<bool>>,
    full: Seq<bool>,
    width: nat,
    i: nat,
    node: int,
    j: int,
)
    requires
        full.len() == width,
        i <= width,
        links_ok(pool_s),
        paths_ok(pool_s, pm, width),
        0 <= node < pool_s.len(),
        pm[node] == full.take(i as int),
        forall|t: int| 0 <= t < pool_s.len() ==> #[trigger] debt_ok(pool_s, pm, full, width, i, t),
        pool_e.len() >= pool_s.len(),
        pool_e[node].count == pool_s[node].count + 1,
        forall|t: int|
            0 <= t < pool_s.len() && t != node ==> (#[trigger] pool_e[t]).count
                == pool_s[t].count,
        forall|t: int, b2: bool|
            0 <= t < pool_s.len() ==> #[trigger] child_count(pool_e, t, b2) == child_count(
                pool_s,
                t,
                b2,
            ) + (
            if child_of(pool_s[t], b2) == Some(node as usize) {
                1nat
            } else {
                0nat
            }),
        0 <= j < pool_s.len(),
        pm[j].len() < width,
    ensures
        pool_e[j].count == child_count(pool_e, j, false) + child_count(pool_e, j, true) + (
        if pm[j] == full.take(i as int) {
            1nat
        } else {
            0nat
        }),
{
    assert(full.take(i as int).len() == i);
    assert(debt_ok(pool_s, pm, full, width, i, j));
    if j == node {
        assert(child_of(pool_s[node], false) != Some(node as usize));
        assert(child_of(pool_s[node], true) != Some(node as usize));
        if i >= 1 && pm[node] == full.take(i - 1) {
            assert(full.take(i - 1).len() == i - 1);
            assert(false);
        }
    } else {
        if i >= 1 && pm[j] == full.take(i - 1) {
            // j is the walked node's parent
            assert(resolve(pool_s, pm[node]) == Some(node));
            assert(full.take(i as int).drop_last() =~= full.take(i - 1));
            assert(resolve(pool_s, pm[j]) == Some(j));
            let lb = full.take(i as int).last();
            assert(child_of(pool_s[j], lb) == Some(node as usize));
            assert(child_of(pool_s[j], !lb) != Some(node as usize)) by {
                if child_of(pool_s[j], !lb) == Some(node as usize) {
                    assert(pm[node] == pm[j].push(!lb));
                    assert(pm[node] == pm[j].push(lb));
                    assert(pm[j].push(lb)[pm[j].len() as int] != pm[j].push(!lb)[pm[j].len() as int]);
                }
            }
            assert(pm[j] != full.take(i as int));
        } else {
            // no slot of j holds the walked node
            assert forall|b2: bool| child_of(pool_s[j], b2) != Some(node as usize) by {
                if child_of(pool_s[j], b2) == Some(node as usize) {
                    assert(pm[node] == pm[j].push(b2));
                    assert(pm[node].len() == i);
                    assert(i >= 1);
                    assert(pm[j] =~= pm[node].drop_last());
                    assert(full.take(i as int).drop_last() =~= full.take(i - 1));
                    assert(false);
                }
            }
            if pm[j] == full.take(i as int) {
                assert(resolve(pool_s, pm[j]) == Some(j));
                assert(resolve(pool_s, pm[node]) == Some(node));
                assert(false);
            }
        }
    }
}

/// One insertion step that follows an existing child: bumping the walked
/// node's count and stepping to its `b`-child keeps the walk state.
#[verifier::rlimit(100)]
#[verifier::spinoff_prover]
pub proof fn lemma_insert_step_follow(
    pool0: Seq<Node>,
    pool_s: Seq<Node>,
    pool_e: Seq<Node>,
    pm: Map<int, Seq<bool>>,
    full: Seq<bool>,
    width: nat,
    i: nat,
    node: int,
    b: bool,
    next: usize,
)
    requires
        insert_inv(pool0, pool_s, pm, full, width, i, node),
        i < width,
        full[i as int] == b,
        child_of(pool_s[node], b) == Some(next),
        pool_e.len() == pool_s.len(),
        pool_e[node].count == pool_s[node].count + 1,
        forall|b2: bool| child_of(pool_e[node], b2) == child_of(pool_s[node], b2),
        forall|j: int| 0 <= j < pool_s.len() && j != node ==> pool_e[j] == pool_s[j],
    ensures
        insert_inv(pool0, pool_e, pm, full, width, i + 1, next as int),
{
    assert(full.take(i as int).len() == i);
    assert(forall|j: int, b2: bool|
        0 <= j < pool_s.len() ==> child_of(pool_e[j], b2) == #[trigger] child_of(pool_s[j], b2));
    lemma_structure_same_links(pool_s, pool_e, pm, width);
    assert(node < next < pool_s.len());
    assert(pm[next as int] == pm[node].push(b));
    assert(pm[next as int] == full.take(i as int + 1)) by {
        assert(full.take(i as int + 1) =~= full.take(i as int).push(full[i as int]));
    }
    assert forall|j: int| 0 <= j < pool_e.len() implies #[trigger] count_shifted(
        pool0,
        pool_e,
        pm,
        full,
        i + 1,
        j,
    ) by {
        assert(count_shifted(pool0, pool_s, pm, full, i, j));
        if j == node {
            assert(!on_walked(pm[node], full, i));
            assert(on_walked(pm[node], full, i + 1));
        } else if pm[j].len() == i && pm[j] == full.take(pm[j].len() as int) {
            assert(resolve(pool_s, pm[j]) == Some(j));
            assert(resolve(pool_s, pm[node]) == Some(node));
            assert(false);
        }
    }
    assert forall|t: int, b2: bool|
        0 <= t < pool_s.len() implies #[trigger] child_count(pool_e, t, b2) == child_count(
        pool_s,
        t,
        b2,
    ) + (
    if child_of(pool_s[t], b2) == Some(node as usize) {
        1nat
    } else {
        0nat
    }) by {
        if child_of(pool_s[t], b2) is Some {
            let c = child_of(pool_s[t], b2).unwrap() as int;
            assert(t < c < pool_s.len());
        }
    }
    assert forall|j: int| 0 <= j < pool_e.len() implies #[trigger] debt_ok(
        pool_e,
        pm,
        full,
        width,
        i + 1,
        j,
    ) by {
        if pm[j].len() < width {
            lemma_step_consistency(pool_s, pool_e, pm, full, width, i, node, j);
        }
    }
}

/// One insertion step that must create the missing child: bumping the
/// walked node's count, appending a fresh empty node, linking it as the
/// `b`-child and recording its path keeps the walk state.
#[verifier::rlimit(100)]
#[verifier::spinoff_prover]
pub proof fn lemma_insert_step_fresh(
    pool0: Seq<Node>,
    pool_s: Seq<Node>,
    pool_e: Seq<Node>,
    pm_s: Map<int, Seq<bool>>,
    pm_e: Map<int, Seq<bool>>,
    full: Seq<bool>,
    width: nat,
    i: nat,
    node: int,
    b: bool,
)
    requires
        insert_inv(pool0, pool_s, pm_s, full, width, i, node),
        i < width,
        full[i as int] == b,
        child_of(pool_s[node], b) is None,
        pool_s.len() <= usize::MAX,
        pool_e.len() == pool_s.len() + 1,
        pool_e[node].count == pool_s[node].count + 1,
        child_of(pool_e[node], b) == Some(pool_s.len() as usize),
        child_of(pool_e[node], !b) == child_of(pool_s[node], !b),
        pool_e[pool_s.len() as int].count == 0,
        child_of(pool_e[pool_s.len() as int], false) is None,
        child_of(pool_e[pool_s.len() as int], true) is None,
        forall|j: int| 0 <= j < pool_s.len() && j != node ==> pool_e[j] == pool_s[j],
        pm_e == pm_s.insert(pool_s.len() as int, pm_s[node].push(b)),
    ensures
        insert_inv(pool0, pool_e, pm_e, full, width, i + 1, pool_s.len() as int),
{
    let idx = pool_s.len() as int;
    assert(full.take(i as int).len() == i);
    assert(idx >= 1);
    assert(pm_e[idx] == pm_s[node].push(b));
    assert(pm_e[idx] == full.take(i as int + 1)) by {
        assert(full.take(i as int + 1) =~= full.take(i as int).push(full[i as int]));
    }
    assert(pm_e[idx].len() == i + 1);
    assert(forall|j: int| 0 <= j < idx ==> #[trigger] pm_e[j] == pm_s[j]);
    // child links were only added
    assert forall|j: int, b2: bool|
        0 <= j < pool_s.len() && (#[trigger] child_of(pool_s[j], b2)) is Some implies child_of(
        pool_e[j],
        b2,
    ) == child_of(pool_s[j], b2) by {
        if j == node && b2 == b {
            assert(false);
        }
        if j == node && b2 != b {
            assert(b2 == !b);
        }
    }
    assert forall|j: int, b2: bool|
        0 <= j < pool_e.len() && (#[trigger] child_of(pool_e[j], b2)) is Some implies j < child_of(
        pool_e[j],
        b2,
    ).unwrap() < pool_e.len() by {
        if j == idx {
            assert(b2 == false || b2 == true);
            assert(child_of(pool_e[j], b2) is None);
        } else if !(j == node && b2 == b) {
            assert(b2 == b || b2 == !b);
            assert(child_of(pool_e[j], b2) == child_of(pool_s[j], b2));
        }
    }
    assert(forall|j: int| 0 <= j < pool_e.len() ==> pm_e.dom().contains(j));
    assert forall|j: int| 0 <= j < pool_e.len() implies (#[trigger] pm_e[j]).len() <= width by {
        if j < idx {
            assert(pm_e[j] == pm_s[j]);
        }
    }
    assert forall|j: int| 0 <= j < pool_e.len() implies #[trigger] resolve(pool_e, pm_e[j])
        == Some(j) by {
        if j < idx {
            assert(resolve(pool_s, pm_s[j]) == Some(j));
            lemma_resolve_frame(pool_s, pool_e, pm_s[j]);
        } else {
            assert(j == idx);
            assert(resolve(pool_s, pm_s[node]) == Some(node));
            lemma_resolve_frame(pool_s, pool_e, pm_s[node]);
            assert(pm_e[idx].drop_last() =~= pm_s[node]);
            assert(pm_e[idx].last() == b);
            assert(resolve(pool_e, pm_e[idx].drop_last()) == Some(node));
            assert(resolve(pool_e, pm_e[idx]) == Some(idx));
        }
    }
    assert forall|j: int, b2: bool|
        0 <= j < pool_e.len() && (#[trigger] child_of(pool_e[j], b2)) is Some implies {
        &&& pm_e[j].len() < width
        &&& pm_e[child_of(pool_e[j], b2).unwrap() as int] == pm_e[j].push(b2)
    } by {
        if j == idx {
            assert(b2 == false || b2 == true);
            assert(child_of(pool_e[j], b2) is None);
        } else if j == node && b2 == b {
            assert(pm_e[node].len() == i);
        } else {
            assert(b2 == b || b2 == !b);
            assert(child_of(pool_e[j], b2) == child_of(pool_s[j], b2));
            let c = child_of(pool_s[j], b2).unwrap() as int;
            assert(j < c < pool_s.len());
            assert(pm_e[c] == pm_s[c]);
        }
    }
    assert forall|j: int|
        0 <= j < pool_e.len() && (#[trigger] pm_e[j]).len() == width implies child_of(
        pool_e[j],
        false,
    ) is None && child_of(pool_e[j], true) is None by {
        if j == idx {
        } else if j == node {
            assert(pm_e[node].len() == i);
            assert(false);
        } else {
            assert(pm_e[j] == pm_s[j]);
            assert(child_of(pool_e[j], false) == child_of(pool_s[j], false));
            assert(child_of(pool_e[j], true) == child_of(pool_s[j], true));
        }
    }
    assert forall|j: int| pool0.len() <= j < pool_e.len() implies (#[trigger] pm_e[j]).len() <= i
        + 1 && pm_e[j] == full.take(pm_e[j].len() as int) by {
        if j < idx {
            assert(pm_e[j] == pm_s[j]);
        }
    }
    assert forall|j: int| 0 <= j < pool_e.len() implies #[trigger] count_shifted(
        pool0,
        pool_e,
        pm_e,
        full,
        i + 1,
        j,
    ) by {
        if j == idx {
            assert(idx >= pool0.len());
            assert(!on_walked(pm_e[idx], full, i + 1));
        } else {
            assert(count_shifted(pool0, pool_s, pm_s, full, i, j));
            assert(pm_e[j] == pm_s[j]);
            if j == node {
                assert(!on_walked(pm_s[node], full, i));
                assert(on_walked(pm_s[node], full, i + 1));
            } else if pm_s[j].len() == i && pm_s[j] == full.take(pm_s[j].len() as int) {
                assert(resolve(pool_s, pm_s[j]) == Some(j));
                assert(resolve(pool_s, pm_s[node]) == Some(node));
                assert(false);
            }
        }
    }
    assert forall|t: int, b2: bool| 0 <= t < pool_s.len() implies #[trigger] child_count(
        pool_e,
        t,
        b2,
    ) == child_count(pool_s, t, b2) + (
    if child_of(pool_s[t], b2) == Some(node as usize) {
        1nat
    } else {
        0nat
    }) by {
        if t == node && b2 == b {
            assert(child_count(pool_s, node, b) == 0);
            assert(child_count(pool_e, node, b) == 0);
            assert(child_of(pool_s[node], b) != Some(node as usize));
        } else {
            assert(b2 == b || b2 == !b);
            assert(child_of(pool_e[t], b2) == child_of(pool_s[t], b2));
            if child_of(pool_s[t], b2) is Some {
                let c = child_of(pool_s[t], b2).unwrap() as int;
                assert(t < c < pool_s.len());
            }
        }
    }
    assert forall|j: int| 0 <= j < pool_e.len() implies #[trigger] debt_ok(
        pool_e,
        pm_e,
        full,
        width,
        i + 1,
        j,
    ) by {
        if j == idx {
            if pm_e[idx].len() < width {
                assert(child_count(pool_e, idx, false) == 0);
                assert(child_count(pool_e, idx, true) == 0);
                assert(pm_e[idx] != full.take(i as int));
            }
        } else {
            assert(pm_e[j] == pm_s[j]);
            if pm_s[j].len() < width {
                assert(debt_ok(pool_s, pm_s, full, width, i, j));
                lemma_step_consistency(pool_s, pool_e, pm_s, full, width, i, node, j);
            }
        }
    }
}

/// The closing increment of an insertion: after the walk consumed all of
/// `full`, bumping the leaf's count settles the last debt and leaves a
/// well-formed pool whose counts are one ahead exactly on `full`'s
/// prefixes.
#[verifier::rlimit(100)]
#[verifier::spinoff_prover]
pub proof fn lemma_insert_finish(
    pool0: Seq<Node>,
    pool_s: Seq<Node>,
    pool_e: Seq<Node>,
    pm: Map<int, Seq<bool>>,
    full: Seq<bool>,
    width: nat,
    node: int,
)
    requires
        insert_inv(pool0, pool_s, pm, full, width, width, node),
        pool_e.len() == pool_s.len(),
        pool_e[node].count == pool_s[node].count + 1,
        forall|b2: bool| child_of(pool_e[node], b2) == child_of(pool_s[node], b2),
        forall|j: int| 0 <= j < pool_s.len() && j != node ==> pool_e[j] == pool_s[j],
    ensures
        links_ok(pool_e),
        paths_ok(pool_e, pm, width),
        counts_ok(pool_e, pm, width),
        forall|j: int|
            0 <= j < pool_e.len() ==> #[trigger] count_shifted(pool0, pool_e, pm, full, width + 1, j),
        forall|j: int, b: bool|
            0 <= j < pool0.len() && (#[trigger] child_of(pool0[j], b)) is Some
                ==> child_of(pool_e[j], b) == child_of(pool0[j], b),
        forall|j: int|
            pool0.len() <= j < pool_e.len()
                ==> (#[trigger] pm[j]).len() <= width && pm[j] == full.take(pm[j].len() as int),
        resolve(pool_e, full) == Some(node),
{
    assert(full.take(width as int) =~= full);
    assert(forall|j: int, b2: bool|
        0 <= j < pool_s.len() ==> child_of(pool_e[j], b2) == #[trigger] child_of(pool_s[j], b2));
    lemma_structure_same_links(pool_s, pool_e, pm, width);
    assert(resolve(pool_e, pm[node]) == Some(node));
    assert forall|j: int| 0 <= j < pool_e.len() implies #[trigger] count_shifted(
        pool0,
        pool_e,
        pm,
        full,
        width + 1,
        j,
    ) by {
        assert(count_shifted(pool0, pool_s, pm, full, width, j));
        if j == node {
            assert(!on_walked(pm[node], full, width));
            assert(on_walked(pm[node], full, width + 1));
        } else if pm[j].len() == width && pm[j] == full.take(pm[j].len() as int) {
            assert(resolve(pool_s, pm[j]) == Some(j));
            assert(resolve(pool_s, pm[node]) == Some(node));
            assert(false);
        }
    }
    assert forall|t: int, b2: bool| 0 <= t < pool_s.len() implies #[trigger] child_count(
        pool_e,
        t,
        b2,
    ) == child_count(pool_s, t, b2) + (
    if child_of(pool_s[t], b2) == Some(node as usize) {
        1nat
    } else {
        0nat
    }) by {
        if child_of(pool_s[t], b2) is Some {
            let c = child_of(pool_s[t], b2).unwrap() as int;
            assert(t < c < pool_s.len());
        }
    }
    assert forall|j: int|
        0 <= j < pool_e.len() && (#[trigger] pm[j]).len() < width implies pool_e[j].count
        == child_count(pool_e, j, false) + child_count(pool_e, j, true) by {
        assert(debt_ok(pool_s, pm, full, width, width, j));
        lemma_step_consistency(pool_s, pool_e, pm, full, width, width, node, j);
        if pm[j] == full.take(width as int) {
            assert(pm[j].len() == width);
            assert(false);
        }
    }
}

/// What one finished insertion did to an arbitrary query path: the answer
/// rose by one exactly on the prefixes of the inserted key's path.
#[verifier::rlimit(100)]
#[verifier::spinoff_prover]
pub proof fn lemma_insert_query(
    pool0: Seq<Node>,
    pm0: Map<int, Seq<bool>>,
    pool_e: Seq<Node>,
    pm_e: Map<int, Seq<bool>>,
    full: Seq<bool>,
    width: nat,
    q: Seq<bool>,
)
    requires
        pool0.len() >= 1,
        links_ok(pool0),
        paths_ok(pool0, pm0, width),
        links_ok(pool_e),
        paths_ok(pool_e, pm_e, width),
        pool0.len() <= pool_e.len(),
        forall|j: int| 0 <= j < pool0.len() ==> #[trigger] pm_e[j] == pm0[j],
        forall|j: int, b: bool|
            0 <= j < pool0.len() && (#[trigger] child_of(pool0[j], b)) is Some
                ==> child_of(pool_e[j], b) == child_of(pool0[j], b),
        forall|j: int|
            pool0.len() <= j < pool_e.len()
                ==> (#[trigger] pm_e[j]).len() <= width && pm_e[j] == full.take(
                pm_e[j].len() as int,
            ),
        forall|j: int|
            0 <= j < pool_e.len() ==> #[trigger] count_shifted(pool0, pool_e, pm_e, full, width + 1, j),
        resolve(pool_e, full) is Some,
        full.len() == width,
        q.len() <= width,
    ensures
        query_count(pool_e, q) == query_count(pool0, q) + (
        if q == full.take(q.len() as int) {
            1nat
        } else {
            0nat
        }),
{
    match resolve(pool_e, q) {
        Some(n) => {
            lemma_resolve_gives_path(pool_e, pm_e, width, q, n);
            assert(count_shifted(pool0, pool_e, pm_e, full, width + 1, n));
            assert(on_walked(pm_e[n], full, width + 1) == (q == full.take(q.len() as int)));
            if n < pool0.len() {
                assert(pm0[n] == q);
                assert(resolve(pool0, pm0[n]) == Some(n));
                assert(query_count(pool0, q) == orig_count(pool0, n));
            } else {
                assert(pm_e[n] == full.take(pm_e[n].len() as int));
                if resolve(pool0, q) is Some {
                    let n0 = resolve(pool0, q).unwrap();
                    lemma_resolve_gives_path(pool0, pm0, width, q, n0);
                    lemma_resolve_frame(pool0, pool_e, q);
                    assert(false);
                }
                assert(orig_count(pool0, n) == 0);
            }
        },
        None => {
            if resolve(pool0, q) is Some {
                lemma_resolve_frame(pool0, pool_e, q);
                assert(false);
            }
            if q == full.take(q.len() as int) {
                lemma_resolve_prefix(pool_e, full, q.len() as int);
                assert(false);
            }
        },
    }
}

/// Count bookkeeping for one pool index during a removal walk along `full`:
/// the counts of the strictly shorter walked prefixes of `full` are one
/// behind what the index carried in `pool0`; every other count is
/// unchanged.
pub open spec fn count_dropped(
    pool0: Seq<Node>,
    pool: Seq<Node>,
    pm: Map<int, Seq<bool>>,
    full: Seq<bool>,
    i: nat,
    j: int,
) -> bool {
    pool[j].count + (
    if on_walked(pm[j], full, i) {
        1nat
    } else {
        0nat
    }) == orig_count(pool0, j)
}

/// Count consistency for one pool index during a removal walk: an inner
/// node's count is the sum of its children's counts, except at the node
/// walked last, which was already decremented while its subtree was not.
pub open spec fn drop_debt_ok(
    pool: Seq<Node>,
    pm: Map<int, Seq<bool>>,
    full: Seq<bool>,
    width: nat,
    i: nat,
    j: int,
) -> bool {
    pm[j].len() < width ==> pool[j].count + (
    if i >= 1 && pm[j] == full.take(i - 1) {
        1nat
    } else {
        0nat
    }) == child_count(pool, j, false) + child_count(pool, j, true)
}

/// The state of a removal walk after the nodes at depths below `i` along
/// `full` were decremented: the structure (links, paths, pool size) is
/// exactly the original one, the walked prefixes' counts are one behind,
/// and the one consistency debt sits at the node decremented last.
pub open spec fn remove_inv(
    pool0: Seq<Node>,
    pool: Seq<Node>,
    pm: Map<int, Seq<bool>>,
    full: Seq<bool>,
    width: nat,
    i: nat,
) -> bool {
    &&& pool0.len() >= 1
    &&& full.len() == width
    &&& i <= width + 1
    &&& pool.len() == pool0.len()
    &&& links_ok(pool)
    &&& paths_ok(pool, pm, width)
    &&& (forall|j: int, b: bool|
        0 <= j < pool.len() ==> child_of(pool[j], b) == #[trigger] child_of(pool0[j], b))
    &&& (forall|j: int| 0 <= j < pool.len() ==> #[trigger] count_dropped(pool0, pool, pm, full, i, j))
    &&& (forall|j: int| 0 <= j < pool.len() ==> #[trigger] drop_debt_ok(pool, pm, full, width, i, j))
}

/// The consistency bookkeeping of one removal step: after the walked node's
/// count fell by one while its children's counts summed the same, the debt
/// moves from the walked node's parent to the walked node itself.
proof fn lemma_drop_consistency(
    pool_s: Seq<Node>,
    pool_e: Seq<Node>,
    pm: Map<int, Seq<bool>>,
    full: Seq<bool>,
    width: nat,
    i: nat,
    node: int,
    j: int,
)
    requires
        full.len() == width,
        i <= width,
        links_ok(pool_s),
        paths_ok(pool_s, pm, width),
        0 <= node < pool_s.len(),
        pm[node] == full.take(i as int),
        forall|t: int|
            0 <= t < pool_s.len() ==> #[trigger] drop_debt_ok(pool_s, pm, full, width, i, t),
        pool_e.len() == pool_s.len(),
        pool_s[node].count >= 1,
        pool_e[node].count == pool_s[node].count - 1,
        forall|t: int|
            0 <= t < pool_s.len() && t != node ==> (#[trigger] pool_e[t]).count
                == pool_s[t].count,
        forall|t: int, b2: bool|
            0 <= t < pool_s.len() ==> #[trigger] child_count(pool_e, t, b2) + (
            if child_of(pool_s[t], b2) == Some(node as usize) {
                1nat
            } else {
                0nat
            }) == child_count(pool_s, t, b2),
        0 <= j < pool_s.len(),
        pm[j].len() < width,
    ensures
        pool_e[j].count + (
        if pm[j] == full.take(i as int) {
            1nat
        } else {
            0nat
        }) == child_count(pool_e, j, false) + child_count(pool_e, j, true),
{
    assert(full.take(i as int).len() == i);
    assert(drop_debt_ok(pool_s, pm, full, width, i, j));
    if j == node {
        assert(child_of(pool_s[node], false) != Some(node as usize));
        assert(child_of(pool_s[node], true) != Some(node as usize));
        if i >= 1 && pm[node] == full.take(i - 1) {
            assert(full.take(i - 1).len() == i - 1);
            assert(false);
        }
    } else {
        if i >= 1 && pm[j] == full.take(i - 1) {
            // j is the walked node's parent
            assert(resolve(pool_s, pm[node]) == Some(node));
            assert(full.take(i as int).drop_last() =~= full.take(i - 1));
            assert(resolve(pool_s, pm[j]) == Some(j));
            let lb = full.take(i as int).last();
            assert(child_of(pool_s[j], lb) == Some(node as usize));
            assert(child_of(pool_s[j], !lb) != Some(node as usize)) by {
                if child_of(pool_s[j], !lb) == Some(node as usize) {
                    assert(pm[node] == pm[j].push(!lb));
                    assert(pm[node] == pm[j].push(lb));
                    assert(pm[j].push(lb)[pm[j].len() as int] != pm[j].push(!lb)[pm[j].len() as int]);
                }
            }
            assert(pm[j] != full.take(i as int));
        } else {
            assert forall|b2: bool| child_of(pool_s[j], b2) != Some(node as usize) by {
                if child_of(pool_s[j], b2) == Some(node as usize) {
                    assert(pm[node] == pm[j].push(b2));
                    assert(pm[node].len() == i);
                    assert(i >= 1);
                    assert(pm[j] =~= pm[node].drop_last());
                    assert(full.take(i as int).drop_last() =~= full.take(i - 1));
                    assert(false);
                }
            }
            if pm[j] == full.take(i as int) {
                assert(resolve(pool_s, pm[j]) == Some(j));
                assert(resolve(pool_s, pm[node]) == Some(node));
                assert(false);
            }
        }
    }
}

/// One removal step: decrementing the count of the path node at depth `i`
/// keeps the walk state.
#[verifier::rlimit(100)]
#[verifier::spinoff_prover]
pub proof fn lemma_remove_step(
    pool0: Seq<Node>,
    pool_s: Seq<Node>,
    pool_e: Seq<Node>,
    pm: Map<int, Seq<bool>>,
    full: Seq<bool>,
    width: nat,
    i: nat,
    node: int,
)
    requires
        remove_inv(pool0, pool_s, pm, full, width, i),
        i <= width,
        0 <= node < pool_s.len(),
        pm[node] == full.take(i as int),
        pool_s[node].count >= 1,
        pool_e.len() == pool_s.len(),
        pool_e[node].count == pool_s[node].count - 1,
        forall|b2: bool| child_of(pool_e[node], b2) == child_of(pool_s[node], b2),
        forall|j: int| 0 <= j < pool_s.len() && j != node ==> pool_e[j] == pool_s[j],
    ensures
        remove_inv(pool0, pool_e, pm, full, width, i + 1),
{
    assert(full.take(i as int).len() == i);
    assert(forall|j: int, b2: bool|
        0 <= j < pool_s.len() ==> child_of(pool_e[j], b2) == #[trigger] child_of(pool_s[j], b2));
    lemma_structure_same_links(pool_s, pool_e, pm, width);
    assert forall|j: int| 0 <= j < pool_e.len() implies #[trigger] count_dropped(
        pool0,
        pool_e,
        pm,
        full,
        i + 1,
        j,
    ) by {
        assert(count_dropped(pool0, pool_s, pm, full, i, j));
        if j == node {
            assert(!on_walked(pm[node], full, i));
            assert(on_walked(pm[node], full, i + 1));
        } else if pm[j].len() == i && pm[j] == full.take(pm[j].len() as int) {
            assert(resolve(pool_s, pm[j]) == Some(j));
            assert(resolve(pool_s, pm[node]) == Some(node));
            assert(false);
        }
    }
    assert forall|t: int, b2: bool| 0 <= t < pool_s.len() implies #[trigger] child_count(
        pool_e,
        t,
        b2,
    ) + (
    if child_of(pool_s[t], b2) == Some(node as usize) {
        1nat
    } else {
        0nat
    }) == child_count(pool_s, t, b2) by {
        if child_of(pool_s[t], b2) is Some {
            let c = child_of(pool_s[t], b2).unwrap() as int;
            assert(t < c < pool_s.len());
        }
    }
    assert forall|j: int| 0 <= j < pool_e.len() implies #[trigger] drop_debt_ok(
        pool_e,
        pm,
        full,
        width,
        i + 1,
        j,
    ) by {
        if pm[j].len() < width {
            lemma_drop_consistency(pool_s, pool_e, pm, full, width, i, node, j);
        }
    }
}

/// What one finished removal walk did to an arbitrary query path: the
/// answer fell by one exactly on the prefixes of the removed key's path.
#[verifier::rlimit(100)]
#[verifier::spinoff_prover]
pub proof fn lemma_remove_query(
    pool0: Seq<Node>,
    pm: Map<int, Seq<bool>>,
    pool_e: Seq<Node>,
    full: Seq<bool>,
    width: nat,
    q: Seq<bool>,
)
    requires
        pool0.len() >= 1,
        links_ok(pool0),
        paths_ok(pool0, pm, width),
        pool_e.len() == pool0.len(),
        forall|j: int, b: bool|
            0 <= j < pool0.len() ==> child_of(pool_e[j], b) == #[trigger] child_of(pool0[j], b),
        forall|j: int|
            0 <= j < pool_e.len() ==> #[trigger] count_dropped(pool0, pool_e, pm, full, width + 1, j),
        resolve(pool0, full) is Some,
        full.len() == width,
        q.len() <= width,
    ensures
        query_count(pool_e, q) + (
        if q == full.take(q.len() as int) {
            1nat
        } else {
            0nat
        }) == query_count(pool0, q),
{
    lemma_resolve_same_links(pool0, pool_e, q);
    match resolve(pool0, q) {
        Some(n) => {
            lemma_resolve_gives_path(pool0, pm, width, q, n);
            assert(count_dropped(pool0, pool_e, pm, full, width + 1, n));
            assert(on_walked(pm[n], full, width + 1) == (q == full.take(q.len() as int)));
        },
        None => {
            if q == full.take(q.len() as int) {
                lemma_resolve_prefix(pool0, full, q.len() as int);
                assert(false);
            }
        },
    }
}

/// The decimal digit character for `d` (meaningful for `d < 10`).
pub open spec fn digit_char(d: nat) -> char {
    ((d + 48) as u8) as char
}

/// The decimal rendering of `n`, most significant digit first.
pub open spec fn dec_str(n: nat) -> Seq<char>
    decreases n,
{
    if n < 10 {
        seq![digit_char(n)]
    } else {
        dec_str(n / 10).push(digit_char(n % 10))
    }
}

/// `n` space characters.
pub open spec fn spaces(n: nat) -> Seq<char> {
    Seq::new(n, |i: int| ' ')
}

/// The rendering of the subtree rooted at pool index `n`, sitting at the
/// given depth: each present child is introduced by its bit digit (the two
/// children separated by a newline and the parent's indentation), and a
/// node with no children shows its count after a colon.
pub open spec fn dump_at(pool: Seq<Node>, depth: nat, n: int) -> Seq<char>
    decreases pool.len() - n,
        when 0 <= n < pool.len() && links_ok(pool)
{
    let c0 = child_of(pool[n], false);
    let c1 = child_of(pool[n], true);
    if c0 is Some && c1 is Some {
        seq!['0'] + dump_at(pool, depth + 1, c0.unwrap() as int) + seq!['\n'] + spaces(depth)
            + seq!['1'] + dump_at(pool, depth + 1, c1.unwrap() as int)
    } else if c0 is Some {
        seq!['0'] + dump_at(pool, depth + 1, c0.unwrap() as int)
    } else if c1 is Some {
        seq!['1'] + dump_at(pool, depth + 1, c1.unwrap() as int)
    } else {
        seq![':', ' '] + dec_str(pool[n].count as nat)
    }
}

/// Pool index `j` lies on the walked path `full`: some prefix of `full`
/// resolves to it.
pub open spec fn on_key_path(pool: Seq<Node>, full: Seq<bool>, width: nat, j: int) -> bool {
    exists|k: int| 0 <= k <= width && #[trigger] resolve(pool, full.take(k)) == Some(j)
}

/// How many of the first `upto` non-empty prefixes of `full` fail to
/// resolve: the number of nodes an insertion along `full` must create.
pub open spec fn missing_on_path(pool: Seq<Node>, full: Seq<bool>, upto: nat) -> nat
    decreases upto,
{
    if upto == 0 {
        0
    } else {
        missing_on_path(pool, full, (upto - 1) as nat) + (
        if resolve(pool, full.take(upto as int)) is None {
            1nat
        } else {
            0nat
        })
    }
}

/// Bridges the ghost bookkeeping to the public path statement: an index
/// lies on the walked path exactly when the path it owns is a prefix of it.
pub proof fn lemma_on_path_correspondence(
    pool: Seq<Node>,
    pm: Map<int, Seq<bool>>,
    width: nat,
    full: Seq<bool>,
    j: int,
)
    requires
        pool.len() >= 1,
        links_ok(pool),
        paths_ok(pool, pm, width),
        full.len() == width,
        0 <= j < pool.len(),
    ensures
        on_key_path(pool, full, width, j) == on_walked(pm[j], full, (width + 1) as nat),
{
    if on_walked(pm[j], full, (width + 1) as nat) {
        let k = pm[j].len() as int;
        assert(resolve(pool, pm[j]) == Some(j));
        assert(full.take(k) == pm[j]);
        assert(0 <= k <= width);
        assert(on_key_path(pool, full, width, j));
    }
    if on_key_path(pool, full, width, j) {
        let k = choose|k: int| 0 <= k <= width && #[trigger] resolve(pool, full.take(k)) == Some(j);
        lemma_resolve_gives_path(pool, pm, width, full.take(k), j);
        assert(pm[j] == full.take(k));
        assert(full.take(k).len() == k);
        assert(on_walked(pm[j], full, (width + 1) as nat));
    }
}

/// Resolution restricts to the smaller pool: where a grown pool kept every
/// old link and routed every new link (from old or new nodes) to new
/// indices, a path that resolves to an old index did so before the growth.
pub proof fn lemma_resolve_shrink(pool1: Seq<Node>, pool2: Seq<Node>, q: Seq<bool>, n: int)
    requires
        pool1.len() <= pool2.len(),
        forall|j: int, b: bool|
            0 <= j < pool1.len() && (#[trigger] child_of(pool1[j], b)) is Some
                ==> child_of(pool2[j], b) == child_of(pool1[j], b),
        forall|j: int, b: bool|
            0 <= j < pool1.len() && child_of(pool1[j], b) is None && (#[trigger] child_of(
                pool2[j],
                b,
            )) is Some ==> child_of(pool2[j], b).unwrap() >= pool1.len(),
        forall|j: int, b: bool|
            pool1.len() <= j < pool2.len() && (#[trigger] child_of(pool2[j], b)) is Some
                ==> child_of(pool2[j], b).unwrap() >= pool1.len(),
        resolve(pool2, q) == Some(n),
        0 <= n < pool1.len(),
    ensures
        resolve(pool1, q) == Some(n),
    decreases q.len(),
{
    if q.len() > 0 {
        let m = resolve(pool2, q.drop_last()).unwrap();
        assert(0 <= m < pool2.len());
        assert(child_of(pool2[m], q.last()) is Some);
        if m >= pool1.len() {
            assert(child_of(pool2[m], q.last()).unwrap() >= pool1.len());
            assert(false);
        }
        if child_of(pool1[m], q.last()) is None {
            assert(child_of(pool2[m], q.last()).unwrap() >= pool1.len());
            assert(false);
        }
        lemma_resolve_shrink(pool1, pool2, q.drop_last(), m);
        assert(child_of(pool1[m], q.last()) == child_of(pool2[m], q.last()));
    }
}

/// An insertion along a path of `upto` steps creates at most `upto` nodes.
pub proof fn lemma_missing_le(pool: Seq<Node>, full: Seq<bool>, upto: nat)
    ensures
        missing_on_path(pool, full, upto) <= upto,
    decreases upto,
{
    if upto > 0 {
        lemma_missing_le(pool, full, (upto - 1) as nat);
    }
}

/// A removal walk starts in the original pool with nothing decremented.
pub proof fn lemma_remove_inv_start(
    pool0: Seq<Node>,
    pm0: Map<int, Seq<bool>>,
    full: Seq<bool>,
    width: nat,
)
    requires
        pool0.len() >= 1,
        links_ok(pool0),
        paths_ok(pool0, pm0, width),
        counts_ok(pool0, pm0, width),
        full.len() == width,
    ensures
        remove_inv(pool0, pool0, pm0, full, width, 0),
{
    assert forall|j: int| 0 <= j < pool0.len() implies #[trigger] count_dropped(
        pool0,
        pool0,
        pm0,
        full,
        0nat,
        j,
    ) by {
        assert(!on_walked(pm0[j], full, 0nat));
    }
    assert forall|j: int| 0 <= j < pool0.len() implies #[trigger] drop_debt_ok(
        pool0,
        pm0,
        full,
        width,
        0nat,
        j,
    ) by {
        assert(counts_ok(pool0, pm0, width));
    }
}

} // verus!
