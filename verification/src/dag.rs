use vstd::prelude::*;

verus! {

// ============================================================
// The node DAG in structure-of-arrays form
// ============================================================

/// The input slot of a node that reads no other node.
pub const NO_INPUT: u32 = 0xffff_ffff;

/// Node kinds.
pub const KIND_INPUT: u32 = 0;
pub const KIND_CONST: u32 = 1;
pub const KIND_SUB: u32 = 2;
pub const KIND_MUL: u32 = 3;
pub const KIND_DIV: u32 = 4;
pub const KIND_EQ: u32 = 5;
pub const KIND_ADD: u32 = 6;

/// Node `i` reads node `v` through one of its two input slots.
pub open spec fn consumes(input0: Seq<u32>, input1: Seq<u32>, i: int, v: int) -> bool {
    ||| input0[i] != NO_INPUT && input0[i] as int == v
    ||| input1[i] != NO_INPUT && input1[i] as int == v
}

/// `p` is a chain of nodes from `start`, each a consumer of the one before
/// it and each (after `start`) clean in `dirty`.
pub open spec fn is_chain(
    dirty: Seq<bool>,
    input0: Seq<u32>,
    input1: Seq<u32>,
    start: int,
    p: Seq<int>,
) -> bool {
    &&& p.len() > 0
    &&& p[0] == start
    &&& forall|k: int| 0 <= k < p.len() ==> 0 <= #[trigger] p[k] < dirty.len()
    &&& forall|k: int|
        1 <= k < p.len() ==> !dirty[#[trigger] p[k]] && consumes(input0, input1, p[k], p[k - 1])
}

/// Node `x` is reached from `start` through consumers that are clean in `dirty`.
pub open spec fn reaches(
    dirty: Seq<bool>,
    input0: Seq<u32>,
    input1: Seq<u32>,
    start: int,
    x: int,
) -> bool {
    exists|p: Seq<int>| #[trigger] is_chain(dirty, input0, input1, start, p) && p.last() == x
}

/// The flags after marking `node`: what was dirty, and every node that
/// `node` reaches through clean consumers.
pub open spec fn marked(dirty: Seq<bool>, input0: Seq<u32>, input1: Seq<u32>, node: int) -> Seq<
    bool,
> {
    Seq::new(dirty.len(), |i: int| dirty[i] || reaches(dirty, input0, input1, node, i))
}

/// The number of clean nodes other than `x`.
pub open spec fn clean_except(d: Seq<bool>, x: int) -> nat
    decreases d.len(),
{
    if d.len() == 0 {
        0
    } else {
        clean_except(d.drop_last(), x) + if !d.last() && d.len() - 1 != x {
            1nat
        } else {
            0nat
        }
    }
}

/// Fewer clean nodes once more are dirty: the count without `x` goes down
/// as `d` grows, and by one more for each newly dirty node other than `x`.
proof fn lemma_clean_mono(e: Seq<bool>, d: Seq<bool>, x: int)
    requires
        e.len() == d.len(),
        forall|j: int| 0 <= j < e.len() && #[trigger] e[j] ==> d[j],
    ensures
        clean_except(d, x) <= clean_except(e, x),
    decreases d.len(),
{
    if d.len() > 0 {
        lemma_clean_mono(e.drop_last(), d.drop_last(), x);
    }
}

/// The count without `x` is the count without `y`, adjusted by the two.
proof fn lemma_clean_swap(d: Seq<bool>, x: int, y: int)
    requires
        0 <= x < d.len(),
        0 <= y < d.len(),
    ensures
        clean_except(d, x) + (if !d[x] { 1int } else { 0int }) == clean_except(d, y) + (if !d[y] {
            1int
        } else {
            0int
        }),
    decreases d.len(),
{
    let n = d.len() - 1;
    let init = d.drop_last();
    if x < n && y < n {
        lemma_clean_swap(init, x, y);
        assert(init[x] == d[x] && init[y] == d[y]);
    } else if x < n {
        lemma_clean_full(init, x);
        lemma_clean_full(init, y);
        assert(init[x] == d[x]);
    } else if y < n {
        lemma_clean_full(init, x);
        lemma_clean_full(init, y);
        assert(init[y] == d[y]);
    }
}

/// Excluding an index outside `d` excludes nothing; excluding a clean one
/// takes one off.
proof fn lemma_clean_full(d: Seq<bool>, x: int)
    ensures
        x >= d.len() ==> clean_except(d, x) == clean_except(d, -1),
        0 <= x < d.len() ==> clean_except(d, x) + (if !d[x] { 1int } else { 0int })
            == clean_except(d, -1),
    decreases d.len(),
{
    if d.len() > 0 {
        let init = d.drop_last();
        lemma_clean_full(init, x);
        if 0 <= x < init.len() {
            assert(init[x] == d[x]);
        }
    }
}

/// Setting node `v` dirty takes it off the count of clean nodes.
proof fn lemma_clean_set(d: Seq<bool>, v: int, i: int)
    requires
        0 <= v < d.len(),
        i != v,
    ensures
        clean_except(d.update(v, true), i) + (if !d[v] { 1int } else { 0int }) == clean_except(
            d,
            i,
        ),
    decreases d.len(),
{
    let n = d.len() - 1;
    let u = d.update(v, true);
    if v < n {
        assert(u.drop_last() =~= d.drop_last().update(v, true));
        assert(u.last() == d.last());
        lemma_clean_set(d.drop_last(), v, i);
        assert(d.drop_last()[v] == d[v]);
    } else {
        assert(u.drop_last() =~= d.drop_last());
    }
}

/// Marks `node` dirty and, through the consumers that are clean, everything
/// downstream of it; `start`, `orig` and `chain` are the call's place in
/// the search that began at `start` on the flags `orig`.
fn mark_from(
    dirty: &mut [bool],
    input0: &[u32],
    input1: &[u32],
    node: u32,
    Ghost(start): Ghost<int>,
    Ghost(orig): Ghost<Seq<bool>>,
    Ghost(chain): Ghost<Seq<int>>,
)
    requires
        node < old(dirty)@.len(),
        old(dirty)@.len() <= NO_INPUT,
        input0@.len() >= old(dirty)@.len(),
        input1@.len() >= old(dirty)@.len(),
        orig.len() == old(dirty)@.len(),
        forall|j: int| 0 <= j < orig.len() && #[trigger] orig[j] ==> old(dirty)@[j],
        is_chain(orig, input0@, input1@, start, chain),
        chain.last() == node,
    ensures
        final(dirty)@.len() == old(dirty)@.len(),
        forall|j: int| 0 <= j < old(dirty)@.len() && #[trigger] old(dirty)@[j] ==> final(dirty)@[j],
        final(dirty)@[node as int],
        forall|u: int, j: int|
            #![trigger final(dirty)@[u], consumes(input0@, input1@, j, u)]
            0 <= u < old(dirty)@.len() && 0 <= j < old(dirty)@.len() && ((final(dirty)@[u]
                && !old(dirty)@[u]) || u == node) && consumes(input0@, input1@, j, u)
                ==> final(dirty)@[j],
        forall|u: int|
            0 <= u < old(dirty)@.len() && #[trigger] final(dirty)@[u] && !old(dirty)@[u] ==> reaches(
                orig,
                input0@,
                input1@,
                start,
                u,
            ),
    decreases clean_except(old(dirty)@, node as int),
{
    let ghost d0 = old(dirty)@;
    let ghost n_ = node as int;
    dirty[node as usize] = true;
    let ghost d1 = dirty@;
    assert(d1 == d0.update(n_, true));
    let n = dirty.len();
    let mut i: usize = 0;
    while i < n
        invariant
            n == dirty@.len(),
            n == d0.len(),
            d0 == old(dirty)@,
            n_ == node as int,
            i <= n,
            node < n,
            n <= NO_INPUT,
            input0@.len() >= n,
            input1@.len() >= n,
            orig.len() == n,
            d1 == d0.update(n_, true),
            is_chain(orig, input0@, input1@, start, chain),
            chain.last() == n_,
            forall|j: int| 0 <= j < n && #[trigger] orig[j] ==> d0[j],
            forall|j: int| 0 <= j < n && #[trigger] d1[j] ==> dirty@[j],
            forall|u: int, j: int|
                0 <= u < n && 0 <= j < n && #[trigger] dirty@[u] && !d0[u] && u != n_
                    && #[trigger] consumes(input0@, input1@, j, u) ==> dirty@[j],
            forall|j: int|
                0 <= j < i && #[trigger] consumes(input0@, input1@, j, n_) ==> dirty@[j],
            forall|u: int|
                0 <= u < n && #[trigger] dirty@[u] && !d0[u] && u != n_ ==> reaches(
                    orig,
                    input0@,
                    input1@,
                    start,
                    u,
                ),
        decreases n - i,
    {
        if !dirty[i] {
            let ghost ii = i as int;
            let ghost next = chain.push(ii);
            assert(orig[ii] ==> d0[ii]);
            assert(d1[ii] ==> dirty@[ii]);
            assert(!orig[ii]);
            let i0 = input0[i];
            let i1 = input1[i];
            assert(input0@[ii] == i0 && input1@[ii] == i1);
            if i0 != NO_INPUT && i0 == node {
                proof {
                    assert(input0@[ii] != NO_INPUT);
                    assert(input0@[ii] as int == n_);
                    assert(consumes(input0@, input1@, ii, n_));
                    assert(is_chain(orig, input0@, input1@, start, next)) by {
                        assert forall|k: int| 1 <= k < next.len() implies !orig[#[trigger] next[k]]
                            && consumes(input0@, input1@, next[k], next[k - 1]) by {
                            if k < chain.len() {
                                assert(next[k] == chain[k] && next[k - 1] == chain[k - 1]);
                            } else {
                                assert(next[k - 1] == chain.last());
                            }
                        }
                        assert forall|k: int| 0 <= k < next.len() implies 0 <= #[trigger] next[k]
                            < orig.len() by {
                            if k < chain.len() {
                                assert(next[k] == chain[k]);
                            }
                        }
                    }
                    lemma_clean_mono(d1, dirty@, ii);
                    lemma_clean_set(d0, n_, ii);
                    lemma_clean_swap(d0, ii, n_);
                    assert(d1[ii] == d0[ii]);
                }
                assert forall|j: int| 0 <= j < n && #[trigger] orig[j] implies dirty@[j] by {
                    assert(d0[j] && d1[j]);
                }
                let ghost da = dirty@;
                mark_from(dirty, input0, input1, i as u32, Ghost(start), Ghost(orig), Ghost(next));
                proof {
                    assert forall|u: int|
                        0 <= u < n && #[trigger] dirty@[u] && !d0[u] && u != n_ implies reaches(
                        orig,
                        input0@,
                        input1@,
                        start,
                        u,
                    ) by {
                        if !da[u] {
                        }
                    }
                    assert forall|u: int, j: int|
                        0 <= u < n && 0 <= j < n && #[trigger] dirty@[u] && !d0[u] && u != n_
                            && #[trigger] consumes(input0@, input1@, j, u) implies dirty@[j] by {
                        if da[u] {
                            assert(da[j]);
                        }
                    }
                }
            }
            if i1 != NO_INPUT && i1 == node {
                proof {
                    assert(consumes(input0@, input1@, ii, n_));
                    assert(is_chain(orig, input0@, input1@, start, next)) by {
                        assert forall|k: int| 1 <= k < next.len() implies !orig[#[trigger] next[k]]
                            && consumes(input0@, input1@, next[k], next[k - 1]) by {
                            if k < chain.len() {
                                assert(next[k] == chain[k] && next[k - 1] == chain[k - 1]);
                            } else {
                                assert(next[k - 1] == chain.last());
                            }
                        }
                        assert forall|k: int| 0 <= k < next.len() implies 0 <= #[trigger] next[k]
                            < orig.len() by {
                            if k < chain.len() {
                                assert(next[k] == chain[k]);
                            }
                        }
                    }
                    lemma_clean_mono(d1, dirty@, ii);
                    lemma_clean_set(d0, n_, ii);
                    lemma_clean_swap(d0, ii, n_);
                    assert(d1[ii] == d0[ii]);
                    if dirty@[ii] {
                        lemma_clean_mono(d1.update(ii, true), dirty@, ii);
                        lemma_clean_full(d1, ii);
                        lemma_clean_full(d1.update(ii, true), ii);
                        lemma_clean_set(d1, ii, n_);
                        lemma_clean_full(d1, n_);
                        lemma_clean_full(d1.update(ii, true), n_);
                        assert(d1.update(ii, true)[n_]);
                        assert(d1[n_]);
                        lemma_clean_mono(d0, d1, n_);
                    }
                }
                assert forall|j: int| 0 <= j < n && #[trigger] orig[j] implies dirty@[j] by {
                    assert(d0[j] && d1[j]);
                }
                let ghost db = dirty@;
                mark_from(dirty, input0, input1, i as u32, Ghost(start), Ghost(orig), Ghost(next));
                proof {
                    assert forall|u: int|
                        0 <= u < n && #[trigger] dirty@[u] && !d0[u] && u != n_ implies reaches(
                        orig,
                        input0@,
                        input1@,
                        start,
                        u,
                    ) by {
                        if !db[u] {
                        }
                    }
                    assert forall|u: int, j: int|
                        0 <= u < n && 0 <= j < n && #[trigger] dirty@[u] && !d0[u] && u != n_
                            && #[trigger] consumes(input0@, input1@, j, u) implies dirty@[j] by {
                        if db[u] {
                            assert(db[j]);
                        }
                    }
                }
            }
        }
        i = i + 1;
    }
    proof {
        assert forall|j: int| 0 <= j < d0.len() && #[trigger] d0[j] implies dirty@[j] by {
            assert(d1[j]);
        }
        assert(d1[n_]);
    }
}

/// Every node on a chain from `start` is dirty in flags closed under
/// consumers from `start` and from every newly dirty node.
proof fn lemma_chain_dirty(
    orig: Seq<bool>,
    fin: Seq<bool>,
    input0: Seq<u32>,
    input1: Seq<u32>,
    start: int,
    p: Seq<int>,
)
    requires
        fin.len() == orig.len(),
        0 <= start < orig.len(),
        fin[start],
        is_chain(orig, input0, input1, start, p),
        forall|u: int, j: int|
            0 <= u < orig.len() && 0 <= j < orig.len() && ((#[trigger] fin[u] && !orig[u]) || u
                == start) && #[trigger] consumes(input0, input1, j, u) ==> fin[j],
    ensures
        fin[p.last()],
    decreases p.len(),
{
    if p.len() > 1 {
        let q = p.drop_last();
        assert(is_chain(orig, input0, input1, start, q)) by {
            assert forall|k: int| 1 <= k < q.len() implies !orig[#[trigger] q[k]] && consumes(
                input0,
                input1,
                q[k],
                q[k - 1],
            ) by {
                assert(q[k] == p[k] && q[k - 1] == p[k - 1]);
            }
            assert forall|k: int| 0 <= k < q.len() implies 0 <= #[trigger] q[k] < orig.len() by {
                assert(q[k] == p[k]);
            }
        }
        lemma_chain_dirty(orig, fin, input0, input1, start, q);
        let k = p.len() - 1;
        assert(p[k - 1] == q.last());
        assert(!orig[p[k]] && consumes(input0, input1, p[k], p[k - 1]));
        if q.len() > 1 {
            assert(!orig[q[q.len() - 1]]);
        }
    }
}

/// Marks `node` dirty, and with it every node downstream of it: each node
/// that reads a marked node through `input0` or `input1` (an input that is
/// not `NO_INPUT`) is marked in turn. A node that was dirty already is left
/// as it is and not followed, so a cycle ends the search.
pub fn mark_dirty(dirty: &mut [bool], input0: &[u32], input1: &[u32], node: u32)
    requires
        node < old(dirty)@.len(),
        old(dirty)@.len() <= NO_INPUT,
        input0@.len() >= old(dirty)@.len(),
        input1@.len() >= old(dirty)@.len(),
    ensures
        final(dirty)@.len() == old(dirty)@.len(),
        forall|i: int|
            0 <= i < old(dirty)@.len() ==> (#[trigger] final(dirty)@[i] <==> (old(dirty)@[i]
                || reaches(old(dirty)@, input0@, input1@, node as int, i))),
        final(dirty)@ == marked(old(dirty)@, input0@, input1@, node as int),
{
    let ghost orig = old(dirty)@;
    let ghost s = node as int;
    let ghost c0 = seq![s];
    proof {
        assert(is_chain(orig, input0@, input1@, s, c0));
    }
    mark_from(dirty, input0, input1, node, Ghost(s), Ghost(orig), Ghost(c0));
    proof {
        assert forall|i: int| 0 <= i < orig.len() implies (#[trigger] dirty@[i] <==> (orig[i]
            || reaches(orig, input0@, input1@, s, i))) by {
            if reaches(orig, input0@, input1@, s, i) {
                let p = choose|p: Seq<int>| #[trigger]
                    is_chain(orig, input0@, input1@, s, p) && p.last() == i;
                lemma_chain_dirty(orig, dirty@, input0@, input1@, s, p);
            }
            if dirty@[i] && !orig[i] {
            }
        }
        assert(dirty@ =~= marked(orig, input0@, input1@, s));
    }
}

/// Marking a node a second time changes nothing: once `node` is marked,
/// every node it reaches is dirty.
pub proof fn lemma_mark_dirty_idempotent(
    dirty: Seq<bool>,
    input0: Seq<u32>,
    input1: Seq<u32>,
    node: int,
)
    requires
        0 <= node < dirty.len(),
    ensures
        marked(marked(dirty, input0, input1, node), input0, input1, node) == marked(
            dirty,
            input0,
            input1,
            node,
        ),
{
    let m = marked(dirty, input0, input1, node);
    let c0 = seq![node];
    assert(is_chain(dirty, input0, input1, node, c0));
    assert(m[node]);
    assert forall|i: int| 0 <= i < m.len() implies (#[trigger] marked(m, input0, input1, node)[i])
        == m[i] by {
        if reaches(m, input0, input1, node, i) && !m[i] {
            let p = choose|p: Seq<int>| #[trigger]
                is_chain(m, input0, input1, node, p) && p.last() == i;
            if p.len() == 1 {
                assert(p[0] == node);
            } else {
                let x = p[1];
                assert(!m[x] && consumes(input0, input1, x, p[0]));
                let c1 = seq![node, x];
                assert(is_chain(dirty, input0, input1, node, c1)) by {
                    assert(c1[1] == x);
                }
                assert(c1.last() == x);
                assert(reaches(dirty, input0, input1, node, x));
            }
        }
    }
    assert(marked(m, input0, input1, node) =~= m);
}

/// The ring of clusters: cluster `i` feeds cluster `i + 1`, the last one
/// feeds the first.
pub fn build_cluster_dag(n: usize) -> (r: Vec<Vec<usize>>)
    ensures
        r@.len() == n,
        forall|i: int| 0 <= i < n ==> (#[trigger] r@[i])@ == seq![((i + 1) % (n as int)) as usize],
{
    let mut r: Vec<Vec<usize>> = Vec::new();
    let mut i: usize = 0;
    while i < n
        invariant
            i <= n,
            r@.len() == i,
            forall|k: int| 0 <= k < i ==> (#[trigger] r@[k])@ == seq![((k + 1) % (n as int)) as usize],
        decreases n - i,
    {
        let next: usize = (i + 1) % n;
        r.push(vec![next]);
        i = i + 1;
    }
    r
}

} // verus!
