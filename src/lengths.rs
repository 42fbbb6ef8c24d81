use vstd::prelude::*;
use crate::arith::{exp2, sum_to, lemma_exp2_adds, lemma_exp2_monotone, lemma_exp2_pos, lemma_sum_le, lemma_sum_scale, lemma_sum_eq, lemma_sum_point, lemma_sum_zero, lemma_sum_zero_tail};
use crate::canonical::{share, kraft_sum, kraft_term, lens_bounded, MAX_CODE_LEN};

verus! {

/// Marks a node without a parent.
pub const NO_PARENT: usize = usize::MAX;

/// The most symbols a table can hold: symbols are 16-bit values.
pub const MAX_SYMBOLS: usize = 65536;

/// Beyond this shift every nonzero weight has become 1, so a further retry
/// would build the same tree again.
pub const MAX_SHRINK: u32 = 32;

/// The number of symbols with a nonzero weight.
pub open spec fn active_count(w: Seq<u32>) -> int {
    sum_to(|s: int| if 0 <= s < w.len() && w[s] > 0 { 1int } else { 0int }, w.len() as int)
}

/// The size of a length table for `n` symbols: `n` rounded up to even.
pub open spec fn padded_len(n: nat) -> nat {
    if n % 2 == 0 {
        n
    } else {
        n + 1
    }
}

/// The weight a symbol of weight `x` takes at a shrink: `max(x >> shrink, 1)`.
pub open spec fn shrunk(x: u32, shrink: u32) -> u64 {
    let y = (x as u64) >> shrink;
    if y == 0 {
        1
    } else {
        y
    }
}

/// The state of a Huffman construction: for each node its parent, two
/// children (joins only) and weight, and the set of nodes not yet joined.
pub struct Forest {
    pub parent: Seq<usize>,
    pub left: Seq<usize>,
    pub right: Seq<usize>,
    pub weight: Seq<u64>,
    pub live: Set<usize>,
}

/// Node `a` goes before node `b`: it is lighter, or as heavy and earlier.
pub open spec fn lighter(weight: Seq<u64>, a: usize, b: usize) -> bool {
    weight[a as int] < weight[b as int] || (weight[a as int] == weight[b as int] && a < b)
}

/// `v` is the node of `live` that goes before every other.
pub open spec fn is_lightest(weight: Seq<u64>, live: Set<usize>, v: usize) -> bool {
    &&& live.contains(v)
    &&& forall|u: usize| #[trigger] live.contains(u) && u != v ==> lighter(weight, v, u)
}

/// The node of `live` that goes before every other.
pub open spec fn lightest(weight: Seq<u64>, live: Set<usize>) -> usize {
    choose|v: usize| is_lightest(weight, live, v)
}

/// The symbols of the weights, before any join.
pub open spec fn leaves(w: Seq<u32>, shrink: u32) -> Forest {
    Forest {
        parent: Seq::new(w.len(), |i: int| NO_PARENT),
        left: Seq::new(w.len(), |i: int| 0usize),
        right: Seq::new(w.len(), |i: int| 0usize),
        weight: Seq::new(w.len(), |i: int| shrunk(w[i], shrink)),
        live: Set::new(|v: usize| v < w.len() && w[v as int] > 0),
    }
}

/// Joins the two nodes that go first into a new node whose weight is
/// their sum, saturating at `u64::MAX`.
pub open spec fn join_step(f: Forest) -> Forest {
    let a = lightest(f.weight, f.live);
    let b = lightest(f.weight, f.live.remove(a));
    let t = f.parent.len();
    Forest {
        parent: f.parent.update(a as int, t as usize).update(b as int, t as usize).push(NO_PARENT),
        left: f.left.push(a),
        right: f.right.push(b),
        weight: f.weight.push(sat_add(f.weight[a as int], f.weight[b as int])),
        live: f.live.remove(a).remove(b).insert(t as usize),
    }
}

/// `a + b`, or `u64::MAX` where that overflows.
pub open spec fn sat_add(a: u64, b: u64) -> u64 {
    if a + b > u64::MAX {
        u64::MAX
    } else {
        (a + b) as u64
    }
}

/// The forest after `k` joins.
pub open spec fn joined(w: Seq<u32>, shrink: u32, k: nat) -> Forest
    decreases k,
{
    if k == 0 {
        leaves(w, shrink)
    } else {
        join_step(joined(w, shrink, (k - 1) as nat))
    }
}

/// The Huffman tree: the forest once every active symbol is joined under one root.
pub open spec fn huffman_tree(w: Seq<u32>, shrink: u32) -> Forest {
    joined(w, shrink, (active_count(w) - 1) as nat)
}

/// The depth of node `v`: the number of parent links up to the root.
pub open spec fn node_depth(parent: Seq<usize>, v: int) -> nat
    decreases parent.len() - v,
{
    if 0 <= v < parent.len() && parent[v] != NO_PARENT && v < parent[v] < parent.len() {
        node_depth(parent, parent[v] as int) + 1
    } else {
        0
    }
}

/// No join lies at depth `max_len` or deeper, so every symbol's depth is at most `max_len`.
pub open spec fn tree_fits(parent: Seq<usize>, n: nat, max_len: nat) -> bool {
    forall|v: int| n <= v < parent.len() ==> #[trigger] node_depth(parent, v) < max_len
}

/// The length table read off a tree: each joined symbol's depth; 0 for the others and the padding.
pub open spec fn depth_lens(parent: Seq<usize>, n: nat) -> Seq<u8> {
    Seq::new(
        padded_len(n),
        |s: int|
            if s < n && parent[s] != NO_PARENT {
                node_depth(parent, s) as u8
            } else {
                0u8
            },
    )
}

/// The lengths of the first tree, from shrink `shrink` up to `MAX_SHRINK`,
/// that fits the limit; `None` when none does.
pub open spec fn fitted_lens(w: Seq<u32>, max_len: nat, shrink: u32) -> Option<Seq<u8>>
    decreases MAX_SHRINK - shrink,
{
    if tree_fits(huffman_tree(w, shrink).parent, w.len(), max_len) {
        Some(depth_lens(huffman_tree(w, shrink).parent, w.len()))
    } else if shrink >= MAX_SHRINK {
        None
    } else {
        fitted_lens(w, max_len, (shrink + 1) as u32)
    }
}

/// The length-limited Huffman code lengths of the weights: all 0 without an
/// active symbol, a lone 1 for a sole one, else the first fitting tree.
pub open spec fn huffman_lens(w: Seq<u32>, max_len: nat) -> Option<Seq<u8>> {
    if active_count(w) >= 2 {
        fitted_lens(w, max_len, 0)
    } else {
        Some(
            Seq::new(
                padded_len(w.len()),
                |s: int|
                    if s < w.len() && w[s] > 0 {
                        1u8
                    } else {
                        0u8
                    },
            ),
        )
    }
}

/// A node that goes before every other is the one `lightest` names.
proof fn lemma_lightest_unique(weight: Seq<u64>, live: Set<usize>, v: usize)
    requires
        is_lightest(weight, live, v),
    ensures
        lightest(weight, live) == v,
{
    let c = lightest(weight, live);
    assert(is_lightest(weight, live, c));
    if c != v {
        assert(lighter(weight, c, v));
        assert(lighter(weight, v, c));
    }
}

/// A Huffman tree held as an arena. Nodes `0..n` are the symbols (leaves);
/// each later node joins two earlier ones.
struct Arena {
    parent: Vec<usize>,
    left: Vec<usize>,
    right: Vec<usize>,
}

/// Node `v` takes part in the tree: a symbol of nonzero weight, or a join.
spec fn in_tree(w: Seq<u32>, v: int) -> bool {
    v >= w.len() || w[v] > 0
}

/// The arena's links agree: each join has two distinct earlier children
/// that name it as parent, and each parent link points at a later join
/// that has the node as a child.
spec fn arena_wf(a: &Arena, w: Seq<u32>) -> bool {
    let t = a.parent@.len();
    let n = w.len();
    &&& n <= t
    &&& a.left@.len() == t
    &&& a.right@.len() == t
    &&& forall|v: int|
        n <= v < t ==> {
            &&& #[trigger] a.left@[v] < v
            &&& a.right@[v] < v
            &&& a.left@[v] != a.right@[v]
            &&& a.parent@[a.left@[v] as int] == v
            &&& a.parent@[a.right@[v] as int] == v
        }
    &&& forall|v: int|
        0 <= v < t && #[trigger] a.parent@[v] != NO_PARENT ==> {
            &&& v < a.parent@[v] < t
            &&& n <= a.parent@[v]
            &&& (a.left@[a.parent@[v] as int] == v || a.right@[a.parent@[v] as int] == v)
        }
    &&& forall|v: int| 0 <= v < n && w[v] == 0 ==> #[trigger] a.parent@[v] == NO_PARENT
}

/// The arena is one finished tree whose root is the last node.
spec fn arena_done(a: &Arena, w: Seq<u32>) -> bool {
    let t = a.parent@.len();
    &&& arena_wf(a, w)
    &&& w.len() < t
    &&& a.parent@[t - 1] == NO_PARENT
    &&& forall|v: int| 0 <= v < t - 1 && in_tree(w, v) ==> #[trigger] a.parent@[v] != NO_PARENT
}

/// Takes out of `live` the node of least weight, ties going to the lowest
/// node index (so symbols before joins, lower symbols first, earlier joins
/// first).
fn take_min(live: &mut Vec<usize>, weight: &Vec<u64>) -> (r: usize)
    requires
        old(live)@.len() > 0,
        forall|i: int| 0 <= i < old(live)@.len() ==> #[trigger] old(live)@[i] < weight@.len(),
        forall|i: int, j: int| 0 <= i < j < old(live)@.len() ==> #[trigger] old(live)@[i] != #[trigger] old(live)@[j],
    ensures
        old(live)@.contains(r),
        final(live)@.len() == old(live)@.len() - 1,
        forall|v: usize| #[trigger] final(live)@.contains(v) <==> (old(live)@.contains(v) && v != r),
        forall|i: int, j: int| 0 <= i < j < final(live)@.len() ==> #[trigger] final(live)@[i] != #[trigger] final(live)@[j],
        forall|i: int| 0 <= i < final(live)@.len() ==> #[trigger] final(live)@[i] < weight@.len(),
        forall|i: int|
            0 <= i < final(live)@.len() ==> weight@[r as int] < weight@[#[trigger] final(live)@[i] as int]
                || (weight@[r as int] == weight@[final(live)@[i] as int] && r < final(live)@[i]),
{
    let mut best: usize = 0;
    let mut i: usize = 1;
    while i < live.len()
        invariant
            1 <= i <= live@.len(),
            best < i,
            live@ == old(live)@,
            forall|j: int| 0 <= j < live@.len() ==> #[trigger] live@[j] < weight@.len(),
            forall|j: int|
                0 <= j < i && j != best ==> weight@[live@[best as int] as int] < weight@[#[trigger] live@[j] as int]
                    || (weight@[live@[best as int] as int] == weight@[live@[j] as int] && live@[best as int] <= live@[j]),
        decreases live@.len() - i,
    {
        let wi = weight[live[i]];
        let wb = weight[live[best]];
        if wi < wb || (wi == wb && live[i] < live[best]) {
            best = i;
        }
        i = i + 1;
    }
    let ghost l0 = live@;
    let r = live.remove(best);
    proof {
        assert forall|v: usize| #[trigger] live@.contains(v) <==> (l0.contains(v) && v != r) by {
            if live@.contains(v) {
                let i = choose|i: int| 0 <= i < live@.len() && live@[i] == v;
                if i < best {
                    assert(l0[i] == v);
                } else {
                    assert(l0[i + 1] == v);
                }
            }
            if l0.contains(v) && v != r {
                let i = choose|i: int| 0 <= i < l0.len() && l0[i] == v;
                if i < best {
                    assert(live@[i] == v);
                } else {
                    assert(live@[i - 1] == v);
                }
            }
        }
        assert forall|i: int, j: int| 0 <= i < j < live@.len() implies #[trigger] live@[i] != #[trigger] live@[j] by {
            let i0 = if i < best { i } else { i + 1 };
            let j0 = if j < best { j } else { j + 1 };
            assert(live@[i] == l0[i0] && live@[j] == l0[j0]);
        }
        assert forall|i: int| 0 <= i < live@.len() implies weight@[r as int] < weight@[#[trigger] live@[i] as int]
            || (weight@[r as int] == weight@[live@[i] as int] && r < live@[i]) by {
            if i < best {
                assert(live@[i] == l0[i]);
                assert(l0[i] != l0[best as int]);
            } else {
                assert(live@[i] == l0[i + 1]);
                assert(l0[i + 1] != l0[best as int]);
            }
        }
    }
    r
}

/// Builds the Huffman tree of the weights after each nonzero weight `x` has
/// become `max(x >> shrink, 1)`: the two lightest nodes are joined until one
/// remains.
fn build_tree(w: &[u32], shrink: u32) -> (a: Arena)
    requires
        w@.len() <= MAX_SYMBOLS,
        active_count(w@) >= 2,
        shrink <= MAX_SHRINK,
    ensures
        arena_done(&a, w@),
        a.parent@.len() <= 2 * w@.len(),
        a.parent@ == huffman_tree(w@, shrink).parent,
        a.left@ == huffman_tree(w@, shrink).left,
        a.right@ == huffman_tree(w@, shrink).right,
{
    let n = w.len();
    let mut weight: Vec<u64> = Vec::new();
    let mut a = Arena { parent: Vec::new(), left: Vec::new(), right: Vec::new() };
    let mut live: Vec<usize> = Vec::new();
    let mut s: usize = 0;
    while s < n
        invariant
            s <= n == w@.len() <= MAX_SYMBOLS,
            shrink <= MAX_SHRINK,
            weight@.len() == s,
            a.parent@.len() == s,
            a.left@.len() == s,
            a.right@.len() == s,
            forall|v: int| 0 <= v < s ==> #[trigger] a.parent@[v] == NO_PARENT,
            forall|v: int| 0 <= v < s ==> #[trigger] a.left@[v] == 0,
            forall|v: int| 0 <= v < s ==> #[trigger] a.right@[v] == 0,
            forall|v: int| 0 <= v < s ==> #[trigger] weight@[v] == shrunk(w@[v], shrink),
            forall|i: int| 0 <= i < live@.len() ==> #[trigger] live@[i] < s,
            forall|i: int, j: int| 0 <= i < j < live@.len() ==> #[trigger] live@[i] != #[trigger] live@[j],
            forall|v: usize| #[trigger] live@.contains(v) <==> (v < s && w@[v as int] > 0),
            live@.len() == sum_to(
                |x: int| if 0 <= x < w@.len() && w@[x] > 0 { 1int } else { 0int },
                s as int,
            ),
        decreases n - s,
    {
        assert(shrink < 64);
        let x = (w[s] as u64) >> shrink;
        weight.push(if x == 0 { 1 } else { x });
        a.parent.push(NO_PARENT);
        a.left.push(0);
        a.right.push(0);
        if w[s] > 0 {
            let ghost l0 = live@;
            live.push(s);
            proof {
                assert forall|v: usize| #[trigger] live@.contains(v) <==> (v < s + 1 && w@[v as int] > 0) by {
                    if v == s {
                        assert(live@[l0.len() as int] == v);
                    } else if live@.contains(v) {
                        let i = choose|i: int| 0 <= i < live@.len() && live@[i] == v;
                        assert(l0[i] == v);
                        assert(l0.contains(v));
                    } else if v < s && w@[v as int] > 0 {
                        assert(l0.contains(v));
                        let i = choose|i: int| 0 <= i < l0.len() && l0[i] == v;
                        assert(live@[i] == v);
                    }
                }
            }
        } else {
            proof {
                assert forall|v: usize| #[trigger] live@.contains(v) <==> (v < s + 1 && w@[v as int] > 0) by {
                    if live@.contains(v) {
                        let i = choose|i: int| 0 <= i < live@.len() && live@[i] == v;
                    }
                }
            }
        }
        s = s + 1;
    }
    let ghost total = live@.len();
    proof {
        assert(total == active_count(w@));
        lemma_count_le(w@, n as int);
        let f0 = leaves(w@, shrink);
        assert(a.parent@ =~= f0.parent);
        assert(a.left@ =~= f0.left);
        assert(a.right@ =~= f0.right);
        assert(weight@ =~= f0.weight);
        assert(joined(w@, shrink, 0) == f0);
    }
    while live.len() > 1
        invariant
            n == w@.len() <= MAX_SYMBOLS,
            arena_wf(&a, w@),
            weight@.len() == a.parent@.len(),
            total <= n,
            total >= 2,
            a.parent@.len() - n + live@.len() == total,
            live@.len() >= 1,
            a.parent@ == joined(w@, shrink, (a.parent@.len() - n) as nat).parent,
            a.left@ == joined(w@, shrink, (a.parent@.len() - n) as nat).left,
            a.right@ == joined(w@, shrink, (a.parent@.len() - n) as nat).right,
            weight@ == joined(w@, shrink, (a.parent@.len() - n) as nat).weight,
            forall|v: usize| #[trigger] live@.contains(v) <==> joined(w@, shrink, (a.parent@.len() - n) as nat).live.contains(v),
            a.parent@.len() > n ==> live@.contains((a.parent@.len() - 1) as usize),
            forall|i: int| 0 <= i < live@.len() ==> #[trigger] live@[i] < a.parent@.len(),
            forall|i: int, j: int| 0 <= i < j < live@.len() ==> #[trigger] live@[i] != #[trigger] live@[j],
            forall|v: usize|
                #[trigger] live@.contains(v) <==> (v < a.parent@.len() && a.parent@[v as int] == NO_PARENT
                    && in_tree(w@, v as int)),
        decreases live@.len(),
    {
        let ghost la = live@;
        let x = take_min(&mut live, &weight);
        let ghost lb = live@;
        let y = take_min(&mut live, &weight);
        let t = a.parent.len();
        let ghost p0 = a.parent@;
        let ghost l0 = a.left@;
        let ghost r0 = a.right@;
        let ghost live0 = live@;
        let ghost w0 = weight@;
        let ghost f = joined(w@, shrink, (t - n) as nat);
        proof {
            assert(f.live.contains(x)) by {
                assert(la.contains(x));
            }
            assert forall|u: usize| #[trigger] f.live.contains(u) && u != x implies lighter(f.weight, x, u) by {
                assert(la.contains(u));
                assert(lb.contains(u));
                let i = choose|i: int| 0 <= i < lb.len() && lb[i] == u;
            }
            assert(is_lightest(f.weight, f.live, x));
            lemma_lightest_unique(f.weight, f.live, x);
            assert forall|u: usize| #[trigger] f.live.remove(x).contains(u) <==> lb.contains(u) by {
                if lb.contains(u) {
                    assert(la.contains(u));
                }
                if f.live.remove(x).contains(u) {
                    assert(la.contains(u));
                }
            }
            assert(f.live.remove(x).contains(y));
            assert forall|u: usize| #[trigger] f.live.remove(x).contains(u) && u != y implies lighter(f.weight, y, u) by {
                assert(live0.contains(u));
                let i = choose|i: int| 0 <= i < live0.len() && live0[i] == u;
            }
            assert(is_lightest(f.weight, f.live.remove(x), y));
            lemma_lightest_unique(f.weight, f.live.remove(x), y);
        }
        weight.push(weight[x].saturating_add(weight[y]));
        a.parent.push(NO_PARENT);
        a.left.push(x);
        a.right.push(y);
        a.parent.set(x, t);
        a.parent.set(y, t);
        live.push(t);
        proof {
            assert(x != y);
            assert(a.left@[t as int] == x && a.right@[t as int] == y);
            assert forall|v: int| n <= v < t + 1 implies {
                &&& #[trigger] a.left@[v] < v
                &&& a.right@[v] < v
                &&& a.left@[v] != a.right@[v]
                &&& a.parent@[a.left@[v] as int] == v
                &&& a.parent@[a.right@[v] as int] == v
            } by {
                if v < t {
                    assert(l0[v] != x && l0[v] != y && r0[v] != x && r0[v] != y) by {
                        assert(p0[l0[v] as int] == v);
                        assert(p0[r0[v] as int] == v);
                        assert(p0[x as int] == NO_PARENT);
                        assert(p0[y as int] == NO_PARENT);
                    }
                }
            }
            assert forall|v: int| 0 <= v < t + 1 && #[trigger] a.parent@[v] != NO_PARENT implies {
                &&& v < a.parent@[v] < t + 1
                &&& n <= a.parent@[v]
                &&& (a.left@[a.parent@[v] as int] == v || a.right@[a.parent@[v] as int] == v)
            } by {
                if v != x && v != y {
                    assert(a.parent@[v] == p0[v]);
                }
            }
            assert forall|v: usize| #[trigger] live@.contains(v) <==> (v < a.parent@.len()
                && a.parent@[v as int] == NO_PARENT && in_tree(w@, v as int)) by {
                if v == t {
                    assert(live@[live0.len() as int] == v);
                } else if live@.contains(v) {
                    let i = choose|i: int| 0 <= i < live@.len() && live@[i] == v;
                    assert(live0[i] == v);
                    assert(live0.contains(v));
                } else if v < t && a.parent@[v as int] == NO_PARENT && in_tree(w@, v as int) {
                    assert(v != x && v != y);
                    assert(live0.contains(v));
                    let i = choose|i: int| 0 <= i < live0.len() && live0[i] == v;
                    assert(live@[i] == v);
                }
            }
            assert(live@.contains(t)) by {
                assert(live@[live0.len() as int] == t);
            }
            assert forall|i: int, j: int| 0 <= i < j < live@.len() implies #[trigger] live@[i] != #[trigger] live@[j] by {
                if j == live0.len() {
                    assert(live0[i] < t);
                }
            }
            let g = joined(w@, shrink, (t + 1 - n) as nat);
            assert(g == join_step(f));
            assert(a.parent@ =~= g.parent);
            assert(a.left@ =~= g.left);
            assert(a.right@ =~= g.right);
            assert(weight@ =~= g.weight);
            assert forall|v: usize| #[trigger] live@.contains(v) <==> g.live.contains(v) by {
                if v == t {
                    assert(live@[live0.len() as int] == v);
                } else if live@.contains(v) {
                    let i = choose|i: int| 0 <= i < live@.len() && live@[i] == v;
                    assert(live0[i] == v);
                    assert(live0.contains(v));
                } else if g.live.contains(v) {
                    assert(live0.contains(v));
                    let i = choose|i: int| 0 <= i < live0.len() && live0[i] == v;
                    assert(live@[i] == v);
                }
            }
        }
    }
    proof {
        let t = a.parent@.len();
        assert(live@[0] == t - 1) by {
            assert(live@.contains((t - 1) as usize));
        }
        assert forall|v: int| 0 <= v < t - 1 && in_tree(w@, v) implies #[trigger] a.parent@[v] != NO_PARENT by {
            if a.parent@[v] == NO_PARENT {
                assert(live@.contains(v as usize));
                let i = choose|i: int| 0 <= i < live@.len() && live@[i] == v as usize;
            }
        }
    }
    a
}

proof fn lemma_count_le(w: Seq<u32>, s: int)
    requires
        0 <= s <= w.len(),
    ensures
        0 <= sum_to(|x: int| if 0 <= x < w.len() && w[x] > 0 { 1int } else { 0int }, s) <= s,
    decreases s,
{
    if s > 0 {
        lemma_count_le(w, s - 1);
    }
}

/// Node `v` is on the frontier once the nodes from `i` on have handed their
/// depth to their children: it lies below `i` and is the root or a child of
/// a node from `i` on.
spec fn on_frontier(parent: Seq<usize>, i: int, v: int) -> bool {
    0 <= v < i && (v == parent.len() - 1 || (parent[v] != NO_PARENT && parent[v] >= i))
}

/// The share of node `v` at full width if it is on the frontier.
spec fn frontier_term(parent: Seq<usize>, depth: Seq<u8>, i: int, v: int) -> int {
    if on_frontier(parent, i, v) {
        share(MAX_CODE_LEN as nat, depth[v] as nat) as int
    } else {
        0
    }
}

proof fn lemma_share_halves(d: nat)
    requires
        d < MAX_CODE_LEN,
    ensures
        share(MAX_CODE_LEN as nat, d) == 2 * share(MAX_CODE_LEN as nat, d + 1),
{
    assert(((MAX_CODE_LEN - d) as nat - 1) as nat == (MAX_CODE_LEN - (d + 1)) as nat);
}

/// Handing the depth of join `q` to its two children keeps the frontier's
/// total share.
proof fn lemma_frontier_step(a: &Arena, w: Seq<u32>, d0: Seq<u8>, d1: Seq<u8>, q: int, d: nat)
    requires
        arena_done(a, w),
        w.len() <= q < a.parent@.len(),
        a.parent@.len() < NO_PARENT,
        on_frontier(a.parent@, q + 1, q),
        d0.len() == a.parent@.len(),
        d == d0[q],
        d < MAX_CODE_LEN,
        d1 == d0.update(a.left@[q] as int, (d + 1) as u8).update(a.right@[q] as int, (d + 1) as u8),
    ensures
        sum_to(|v: int| frontier_term(a.parent@, d1, q, v), a.parent@.len() as int) == sum_to(
            |v: int| frontier_term(a.parent@, d0, q + 1, v),
            a.parent@.len() as int,
        ),
{
    let t = a.parent@.len() as int;
    let p = a.parent@;
    let c1 = a.left@[q] as int;
    let c2 = a.right@[q] as int;
    let half = share(MAX_CODE_LEN as nat, d + 1) as int;
    let f0 = |v: int| frontier_term(p, d0, q + 1, v);
    let g1 = |v: int| if v == q { 0 } else { f0(v) };
    let g2 = |v: int| if v == c1 { half } else { g1(v) };
    let g3 = |v: int| if v == c2 { half } else { g2(v) };
    let f3 = |v: int| frontier_term(p, d1, q, v);
    lemma_sum_point(f0, g1, t, q);
    assert(f0(c1) == 0);
    assert(f0(c2) == 0);
    lemma_sum_point(g1, g2, t, c1);
    lemma_sum_point(g2, g3, t, c2);
    lemma_share_halves(d);
    assert(a.left@[q] < q && a.right@[q] < q && c1 != c2 && p[c1] == q && p[c2] == q);
    assert(d1[c1] == d + 1 && d1[c2] == d + 1);
    assert forall|v: int| 0 <= v < t implies #[trigger] f3(v) == g3(v) by {
        if v == c2 {
            assert(on_frontier(p, q, c2));
        } else if v == c1 {
            assert(on_frontier(p, q, c1));
        } else if v == q {
            assert(!on_frontier(p, q, q));
        }
        if v != q && v != c1 && v != c2 {
            assert(d1[v] == d0[v]);
            if 0 <= v < q && p[v] != NO_PARENT && p[v] == q {
                assert(a.left@[p[v] as int] == v || a.right@[p[v] as int] == v);
            }
        }
    }
    lemma_sum_eq(f3, g3, t);
}

/// Reads each symbol's depth off a finished tree as its code length; `None`
/// when a join lies at depth `max_len` or deeper, so that its leaves would
/// need longer codes.
fn tree_lens(a: &Arena, w: &[u32], max_len: u8) -> (r: Option<Vec<u8>>)
    requires
        arena_done(a, w@),
        1 <= max_len <= MAX_CODE_LEN,
        a.parent@.len() <= 2 * w@.len(),
        w@.len() <= MAX_SYMBOLS,
    ensures
        r is None <==> !tree_fits(a.parent@, w@.len(), max_len as nat),
        r matches Some(lens) ==> lens@ == depth_lens(a.parent@, w@.len()),
        r matches Some(lens) ==> {
            &&& lens@.len() == padded_len(w@.len())
            &&& forall|s: int| 0 <= s < w@.len() ==> (#[trigger] lens@[s] >= 1 <==> w@[s] > 0)
            &&& forall|s: int| w@.len() <= s < lens@.len() ==> #[trigger] lens@[s] == 0
            &&& lens_bounded(lens@, max_len as nat)
            &&& kraft_sum(lens@, MAX_CODE_LEN as nat) == exp2(MAX_CODE_LEN as nat)
        },
{
    let n = w.len();
    let t = a.parent.len();
    let mut depth: Vec<u8> = Vec::new();
    let mut j: usize = 0;
    while j < t
        invariant
            j <= t == a.parent@.len(),
            depth@.len() == j,
            forall|v: int| 0 <= v < j ==> #[trigger] depth@[v] == 0,
        decreases t - j,
    {
        depth.push(0);
        j = j + 1;
    }
    proof {
        let z = |v: int| 0int;
        let f = |v: int| frontier_term(a.parent@, depth@, t as int, v);
        lemma_sum_zero(t as int);
        lemma_sum_point(z, f, t as int, t - 1);
        assert(share(MAX_CODE_LEN as nat, 0) == exp2(MAX_CODE_LEN as nat));
    }
    let mut i: usize = t;
    while i > n
        invariant
            arena_done(a, w@),
            n == w@.len(),
            t == a.parent@.len(),
            1 <= max_len <= MAX_CODE_LEN,
            n <= i <= t,
            t <= 2 * n,
            n <= MAX_SYMBOLS,
            depth@.len() == t,
            sum_to(|v: int| frontier_term(a.parent@, depth@, i as int, v), t as int) == exp2(
                MAX_CODE_LEN as nat,
            ),
            forall|v: int|
                #[trigger] on_frontier(a.parent@, i as int, v) ==> depth@[v] <= max_len && (v != t - 1
                    ==> depth@[v] >= 1) && depth@[v] == node_depth(a.parent@, v),
            forall|v: int| i <= v < t ==> #[trigger] node_depth(a.parent@, v) < max_len,
        decreases i,
    {
        let q = i - 1;
        assert(on_frontier(a.parent@, i as int, q as int)) by {
            if q != t - 1 {
                assert(in_tree(w@, q as int));
                assert(a.parent@[q as int] != NO_PARENT);
            }
        }
        let d = depth[q];
        if d >= max_len {
            assert(node_depth(a.parent@, q as int) >= max_len);
            return None;
        }
        let c1 = a.left[q];
        let c2 = a.right[q];
        let ghost d0 = depth@;
        depth.set(c1, d + 1);
        depth.set(c2, d + 1);
        proof {
            lemma_frontier_step(a, w@, d0, depth@, q as int, d as nat);
            assert(a.parent@[c1 as int] == q && a.parent@[c2 as int] == q && c1 < q && c2 < q);
            assert(node_depth(a.parent@, c1 as int) == node_depth(a.parent@, q as int) + 1);
            assert(node_depth(a.parent@, c2 as int) == node_depth(a.parent@, q as int) + 1);
            assert forall|v: int| #[trigger] on_frontier(a.parent@, q as int, v) implies depth@[v]
                <= max_len && (v != t - 1 ==> depth@[v] >= 1) && depth@[v] == node_depth(a.parent@, v) by {
                if v != c1 && v != c2 {
                    assert(depth@[v] == d0[v]);
                    if a.parent@[v] != NO_PARENT && a.parent@[v] == q {
                        assert(a.left@[a.parent@[v] as int] == v || a.right@[a.parent@[v] as int] == v);
                    }
                    assert(on_frontier(a.parent@, i as int, v));
                }
            }
        }
        i = q;
    }
    let mut lens: Vec<u8> = Vec::new();
    let mut s: usize = 0;
    while s < n
        invariant
            arena_done(a, w@),
            n == w@.len(),
            t == a.parent@.len(),
            i == n,
            s <= n,
            depth@.len() == t,
            lens@.len() == s,
            forall|v: int|
                #[trigger] on_frontier(a.parent@, n as int, v) ==> depth@[v] <= max_len && (v != t - 1
                    ==> depth@[v] >= 1) && depth@[v] == node_depth(a.parent@, v),
            forall|v: int| n <= v < t ==> #[trigger] node_depth(a.parent@, v) < max_len,
            forall|v: int|
                0 <= v < s ==> #[trigger] lens@[v] == (if a.parent@[v] != NO_PARENT {
                    depth@[v]
                } else {
                    0
                }),
        decreases n - s,
    {
        let x = if a.parent[s] != NO_PARENT {
            depth[s]
        } else {
            0
        };
        lens.push(x);
        s = s + 1;
    }
    if n % 2 == 1 {
        lens.push(0);
    }
    proof {
        let ft = |v: int| frontier_term(a.parent@, depth@, n as int, v);
        let kt = |v: int| kraft_term(lens@, MAX_CODE_LEN as nat, v);
        assert forall|v: int| 0 <= v < n implies #[trigger] lens@[v] >= 1 <==> w@[v] > 0 by {
            assert(on_frontier(a.parent@, n as int, v) <==> a.parent@[v] != NO_PARENT);
        }
        assert forall|v: int| 0 <= v < n implies #[trigger] kt(v) == ft(v) by {
            assert(on_frontier(a.parent@, n as int, v) <==> a.parent@[v] != NO_PARENT);
        }
        lemma_sum_eq(kt, ft, n as int);
        assert forall|v: int| 0 <= v < lens@.len() implies #[trigger] lens@[v] == depth_lens(a.parent@, n as nat)[v] by {
            if v < n {
                assert(on_frontier(a.parent@, n as int, v) <==> a.parent@[v] != NO_PARENT);
            }
        }
        assert(lens@ =~= depth_lens(a.parent@, n as nat));
        lemma_sum_zero_tail(ft, n as int, t as int);
        lemma_sum_zero_tail(kt, n as int, lens@.len() as int);
        assert forall|v: int| 0 <= v < lens@.len() implies #[trigger] lens@[v] as nat <= max_len by {
            if v < n {
                assert(on_frontier(a.parent@, n as int, v) <==> a.parent@[v] != NO_PARENT);
            }
        }
    }
    Some(lens)
}

/// `lens` is a length table for the weights `w` with longest length
/// `max_len`: one entry per symbol, padded to an even count with zeros;
/// exactly the symbols of nonzero weight get a nonzero length, at most
/// `max_len`; a sole active symbol gets length 1; and with two or more
/// active symbols the code is complete (Kraft sum exactly 1).
pub open spec fn lens_for_weights(w: Seq<u32>, max_len: nat, lens: Seq<u8>) -> bool {
    &&& lens.len() == padded_len(w.len())
    &&& forall|s: int| 0 <= s < w.len() ==> (#[trigger] lens[s] >= 1 <==> w[s] > 0)
    &&& forall|s: int| w.len() <= s < lens.len() ==> #[trigger] lens[s] == 0
    &&& lens_bounded(lens, max_len)
    &&& active_count(w) <= 1 ==> forall|s: int| 0 <= s < w.len() && w[s] > 0 ==> #[trigger] lens[s] == 1
    &&& active_count(w) >= 2 ==> kraft_sum(lens, MAX_CODE_LEN as nat) == exp2(MAX_CODE_LEN as nat)
}

/// The code lengths of a length-limited Huffman code for the weights.
///
/// With no active symbol every length is 0; a sole active symbol gets
/// length 1. Otherwise the Huffman tree is built for the weights, each
/// nonzero weight `x` first turned into `max(x >> shrink, 1)`, starting with
/// `shrink = 0`; while the tree is deeper than `canonical_lens_max` the
/// shrink grows by one and the tree is built again. From a shrink of 32 on
/// every active weight is 1, so the last tree is tried at 32: if it is still
/// too deep, the result is `None`. With more active symbols than
/// `2^canonical_lens_max` that is always the case
/// (`lemma_limit_bounds_symbols`).
pub fn compute_canonical_lens(symbol_weights: &[u32], canonical_lens_max: u8) -> (r: Option<Vec<u8>>)
    requires
        symbol_weights@.len() <= MAX_SYMBOLS,
        1 <= canonical_lens_max <= MAX_CODE_LEN,
    ensures
        r is None ==> huffman_lens(symbol_weights@, canonical_lens_max as nat) is None,
        r matches Some(lens) ==> huffman_lens(symbol_weights@, canonical_lens_max as nat) == Some(
            lens@,
        ),
        r is None ==> active_count(symbol_weights@) >= 2,
        r matches Some(lens) ==> lens_for_weights(symbol_weights@, canonical_lens_max as nat, lens@),
{
    let w = symbol_weights;
    let n = w.len();
    let mut count: usize = 0;
    let mut last: usize = 0;
    let mut s: usize = 0;
    while s < n
        invariant
            s <= n == w@.len() <= MAX_SYMBOLS,
            w@ == symbol_weights@,
            count <= s,
            count == sum_to(|x: int| if 0 <= x < w@.len() && w@[x] > 0 { 1int } else { 0int }, s as int),
            count >= 1 ==> last < s && w@[last as int] > 0,
            count <= 1 ==> forall|v: int| 0 <= v < s && #[trigger] w@[v] > 0 ==> v == last,
            count == 0 ==> forall|v: int| 0 <= v < s ==> #[trigger] w@[v] == 0,
        decreases n - s,
    {
        if w[s] > 0 {
            count = count + 1;
            last = s;
        }
        s = s + 1;
    }
    if count < 2 {
        let mut lens: Vec<u8> = Vec::new();
        let size = if n % 2 == 0 { n } else { n + 1 };
        let mut j: usize = 0;
        while j < size
            invariant
                j <= size,
                lens@.len() == j,
                forall|v: int| 0 <= v < j ==> #[trigger] lens@[v] == 0,
            decreases size - j,
        {
            lens.push(0);
            j = j + 1;
        }
        if count == 1 {
            lens.set(last, 1);
        }
        assert(active_count(w@) == count);
        assert(lens_bounded(lens@, canonical_lens_max as nat));
        assert(forall|v: int| 0 <= v < n ==> (#[trigger] lens@[v] >= 1 <==> w@[v] > 0));
        assert(lens@ =~= huffman_lens(w@, canonical_lens_max as nat)->Some_0);
        return Some(lens);
    }
    let mut shrink: u32 = 0;
    loop
        invariant
            n == w@.len() <= MAX_SYMBOLS,
            w@ == symbol_weights@,
            1 <= canonical_lens_max <= MAX_CODE_LEN,
            active_count(w@) >= 2,
            shrink <= MAX_SHRINK,
            huffman_lens(w@, canonical_lens_max as nat) == fitted_lens(
                w@,
                canonical_lens_max as nat,
                shrink,
            ),
        decreases MAX_SHRINK - shrink,
    {
        let tree = build_tree(w, shrink);
        let attempt = tree_lens(&tree, w, canonical_lens_max);
        if let Some(lens) = attempt {
            return Some(lens);
        }
        if shrink == MAX_SHRINK {
            return None;
        }
        shrink = shrink + 1;
    }
}

/// A length limit leaves room for at most `2^max_len` active symbols: no
/// table for weights with more respects the limit, so for those
/// `compute_canonical_lens` returns `None`.
pub proof fn lemma_limit_bounds_symbols(w: Seq<u32>, max_len: nat, lens: Seq<u8>)
    requires
        lens_for_weights(w, max_len, lens),
        max_len <= MAX_CODE_LEN,
    ensures
        active_count(w) <= exp2(max_len),
{
    let m = MAX_CODE_LEN as nat;
    let n = w.len() as int;
    lemma_exp2_pos(max_len);
    if active_count(w) >= 2 {
        let ind = |x: int| if 0 <= x < w.len() && w[x] > 0 { 1int } else { 0int };
        let low = share(m, max_len) as int;
        let g = |x: int| ind(x) * low;
        let kt = |x: int| kraft_term(lens, m, x);
        assert forall|x: int| 0 <= x < n implies #[trigger] g(x) <= kt(x) by {
            if w[x] > 0 {
                assert(lens[x] as nat <= max_len);
                lemma_exp2_monotone((m - max_len) as nat, (m - lens[x]) as nat);
            }
        }
        lemma_sum_scale(ind, g, low, n);
        lemma_sum_le(g, kt, n);
        lemma_sum_zero_tail(kt, n, lens.len() as int);
        lemma_exp2_adds(max_len, (m - max_len) as nat);
        assert((max_len + (m - max_len) as nat) as nat == m);
        lemma_exp2_pos((m - max_len) as nat);
        let c = active_count(w);
        assert(c <= exp2(max_len)) by (nonlinear_arith)
            requires
                c * low <= exp2(m),
                exp2(m) == exp2(max_len) * low,
                low >= 1,
        ;
    }
}

} // verus!
